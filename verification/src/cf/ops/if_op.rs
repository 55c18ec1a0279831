//! A choice between two regions.

use crate::cf::op_interfaces::YieldingRegions;
use crate::cf::ops::yield_op::YieldOp;
use crate::ir::context::Context;
use crate::ir::model::{BlockView, Def, Ir, OpView, RegionView};
use crate::ir::types::{
    BlockId, BlockInsertionPoint, Location, OpId, OpKind, RegionId, Type, Value,
};
use vstd::prelude::*;

verus! {

/// Runs one region if a condition holds and, if there is one, another region if it does not.
///
/// ## Operand(s)
/// | operand | description |
/// |-----|-------|
/// | `condition` | signless 1-bit integer |
///
/// ## Result(s)
/// | result | description |
/// |-----|-------|
/// | `results` | (variadic) values produced by the region that ran, as `yield`ed by it |
///
/// ## Region(s)
///   - The region that runs when `condition` is true, and an optional region that runs when it
///   is false. Each has a single block that takes no arguments and must `yield` the results of
///   this op. An op with results must have both.
///   Use [ExecuteRegionOp](crate::cf::ops::ExecuteRegionOp) to embed multi-block control flow
///   in a region.
#[derive(Debug, Clone, Copy, PartialEq, Eq, Structural, Hash)]
pub struct IfOp {
    pub op: OpId,
}

impl YieldingRegions<YieldOp> for IfOp {
    open spec fn yielding_op(&self) -> OpId {
        self.op
    }

    fn get_operation(&self) -> (op: OpId) {
        self.op
    }
}

/// What the parts of the operation are.
impl IfOp {
    pub open spec fn condition(self, ir: Ir) -> Value {
        ir.ops[self.op].operands[0]
    }

    pub open spec fn has_else(self, ir: Ir) -> bool {
        ir.ops[self.op].regions.len() > 1
    }

    pub open spec fn region(self, ir: Ir, reg_idx: int) -> RegionId {
        ir.ops[self.op].regions[reg_idx]
    }

    pub open spec fn entry(self, ir: Ir, reg_idx: int) -> BlockId {
        ir.entry(self.op, reg_idx)
    }

    pub open spec fn exit(self, ir: Ir, reg_idx: int) -> BlockId {
        ir.exit(self.op, reg_idx)
    }

    pub open spec fn yield_op(self, ir: Ir, reg_idx: int) -> OpId {
        ir.exit_op(self.op, reg_idx)
    }
}

impl IfOp {
    /// Get the condition operand.
    pub fn get_condition(&self, ctx: &Context) -> (v: Value)
        requires
            ctx@.ops.contains_key(self.op),
            ctx@.ops[self.op].operands.len() > 0,
        ensures
            v == self.condition(ctx@),
    {
        ctx.operands(self.op)[0]
    }

    /// Is there a region for when the condition is false?
    pub fn has_else_region(&self, ctx: &Context) -> (b: bool)
        requires
            ctx@.ops.contains_key(self.op),
        ensures
            b == self.has_else(ctx@),
    {
        ctx.regions(self.op).len() > 1
    }
}

/// Construction.
impl IfOp {
    /// The representation with a new operation, in no block, whose regions are one empty block
    /// each.
    pub open spec fn begun(
        ir: Ir,
        condition: Value,
        result_types: Seq<Type>,
        with_else: bool,
    ) -> Ir {
        let n = if with_else { 2nat } else { 1nat };
        Ir {
            ops: ir.ops.insert(
                ir.op_at(0),
                OpView {
                    kind: OpKind::CfIf,
                    results: Def::all_unnamed(result_types),
                    operands: seq![condition],
                    successors: Seq::empty(),
                    regions: Seq::new(n, |i: int| ir.region_at(i)),
                    segments: Seq::empty(),
                    parent: None,
                    loc: Location::Unknown,
                },
            ),
            blocks: Map::new(
                |b: BlockId|
                    ir.blocks.contains_key(b) || ir.next_block <= b < ir.next_block + n,
                |b: BlockId|
                    if b < ir.next_block {
                        ir.blocks[b]
                    } else {
                        BlockView {
                            label: Some("entry"@),
                            args: Seq::empty(),
                            ops: Seq::empty(),
                            parent: ir.region_at(b - ir.next_block),
                            loc: Location::Unknown,
                        }
                    },
            ),
            regions: Map::new(
                |r: RegionId|
                    ir.regions.contains_key(r) || ir.next_region <= r < ir.next_region + n,
                |r: RegionId|
                    if r < ir.next_region {
                        ir.regions[r]
                    } else {
                        RegionView {
                            blocks: seq![ir.block_at(r - ir.next_region)],
                            parent: ir.op_at(0),
                        }
                    },
            ),
            next_op: ir.next_op + 1,
            next_block: ir.next_block + n,
            next_region: ir.next_region + n,
        }
    }

    /// Creates a new `IfOp` with the specified condition and result types, and with an `else`
    /// region if asked for. Each region is one empty block, to be filled and ended with a
    /// [YieldOp].
    pub fn new(
        ctx: &mut Context,
        condition: Value,
        result_types: Vec<Type>,
        with_else: bool,
    ) -> (this: Self)
        requires
            old(ctx).wf(),
            old(ctx)@.has_value(condition),
        ensures
            final(ctx).wf(),
            final(ctx).extends(old(ctx).journal()),
            this.op == old(ctx)@.op_at(0),
            final(ctx)@ == IfOp::begun(old(ctx)@, condition, result_types@, with_else),
    {
        let ghost ir = ctx@;
        let ghost types = result_types@;
        let operands: Vec<Value> = vec![condition];
        assert(operands@ =~= seq![condition]);
        let num_regions: usize = if with_else {
            2
        } else {
            1
        };
        let op: OpId = ctx.create_op(
            OpKind::CfIf,
            result_types,
            operands,
            Vec::new(),
            num_regions,
            Vec::new(),
        );
        let ghost s1 = ctx@;
        proof {
            assert(s1.next_region <= usize::MAX && s1.next_op <= usize::MAX) by {
                reveal(Ir::wf);
            }
            assert(s1.ops[op].regions[0] == ir.region_at(0));
            assert(with_else ==> s1.ops[op].regions[1] == ir.region_at(1));
        }
        let regions = ctx.regions(op);
        let label = String::from_str("entry");
        let then_entry: BlockId = ctx.create_block(
            BlockInsertionPoint::AtRegionStart(regions[0]),
            Some(label),
            Vec::new(),
        );
        proof {
            assert(ctx@.next_block <= usize::MAX) by {
                reveal(Ir::wf);
            }
            assert(Seq::<BlockId>::empty().insert(0, then_entry) =~= seq![then_entry]);
        }
        if with_else {
            let label = String::from_str("entry");
            let else_entry: BlockId = ctx.create_block(
                BlockInsertionPoint::AtRegionStart(regions[1]),
                Some(label),
                Vec::new(),
            );
            proof {
                assert(ctx@.next_block <= usize::MAX) by {
                    reveal(Ir::wf);
                }
                assert(Seq::<BlockId>::empty().insert(0, else_entry) =~= seq![else_entry]);
            }
        }
        proof {
            assert(forall|r: RegionId| ir.regions.contains_key(r) ==> r < ir.next_region) by {
                reveal(Ir::wf);
            }
            assert(forall|b: BlockId| ir.blocks.contains_key(b) ==> b < ir.next_block) by {
                reveal(Ir::wf);
            }
            let goal = IfOp::begun(ir, condition, types, with_else);
            assert(ctx@.ops[op] =~= goal.ops[op]);
            assert(ctx@.ops =~= goal.ops);
            assert(ctx@.blocks.dom() =~= goal.blocks.dom());
            assert forall|b: BlockId| #[trigger] goal.blocks.contains_key(b) implies ctx@.blocks[b]
                == goal.blocks[b] by {
                assert(ctx@.blocks[b] =~= goal.blocks[b]);
            }
            assert(ctx@.blocks =~= goal.blocks);
            assert(ctx@.regions =~= goal.regions);
        }
        IfOp { op }
    }
}

/// Why an [IfOp] is not in order.
#[derive(Debug, Clone, Copy, PartialEq, Eq, Structural)]
pub enum IfOpVerifyErr {
    IncorrectConditionType,
    RegionHasArguments,
    MissingElseRegion,
}

impl IfOpVerifyErr {
    /// What is wrong, in words.
    pub open spec fn text(self) -> Seq<char> {
        match self {
            IfOpVerifyErr::IncorrectConditionType => "IfOp condition operand must be a signless 1-bit integer (i1)"@,
            IfOpVerifyErr::RegionHasArguments => "IfOp's regions must not take any arguments"@,
            IfOpVerifyErr::MissingElseRegion => "IfOp with results must have an else region"@,
        }
    }

    /// Says what is wrong.
    pub fn message(&self) -> (message: &'static str)
        ensures
            message@ == self.text(),
    {
        match self {
            IfOpVerifyErr::IncorrectConditionType => "IfOp condition operand must be a signless 1-bit integer (i1)",
            IfOpVerifyErr::RegionHasArguments => "IfOp's regions must not take any arguments",
            IfOpVerifyErr::MissingElseRegion => "IfOp with results must have an else region",
        }
    }
}

/// Verification.
impl IfOp {
    /// Does no region take arguments?
    pub open spec fn regions_take_nothing(self, ir: Ir) -> bool {
        forall|i: int|
            0 <= i < ir.ops[self.op].regions.len() ==> ir.blocks[#[trigger] self.entry(
                ir,
                i,
            )].args.len() == 0
    }

    /// What the check finds.
    pub open spec fn verified(self, ir: Ir) -> Result<(), IfOpVerifyErr> {
        if ir.def(self.condition(ir)).ty != Type::signless(1) {
            Err(IfOpVerifyErr::IncorrectConditionType)
        } else if !self.regions_take_nothing(ir) {
            Err(IfOpVerifyErr::RegionHasArguments)
        } else if ir.ops[self.op].results.len() > 0 && !self.has_else(ir) {
            Err(IfOpVerifyErr::MissingElseRegion)
        } else {
            Ok(())
        }
    }

    /// Checks that the condition is a signless 1-bit integer, that the regions take no
    /// arguments, and that there is an `else` region if there are results.
    pub fn verify(&self, ctx: &Context) -> (result: Result<(), IfOpVerifyErr>)
        requires
            ctx.wf(),
            ctx@.ops.contains_key(self.op),
            ctx@.ops[self.op].operands.len() > 0,
            forall|i: int|
                0 <= i < ctx@.ops[self.op].regions.len() ==> #[trigger] ctx@.has_body(self.op, i),
        ensures
            result == self.verified(ctx@),
    {
        let ghost ir = ctx@;
        proof {
            ir.operands_there(self.op);
        }
        if ctx.type_of(self.get_condition(ctx)) != Type::i1() {
            return Err(IfOpVerifyErr::IncorrectConditionType);
        }
        let num_regions: usize = ctx.regions(self.op).len();
        for i in 0..num_regions
            invariant
                ctx.wf(),
                ir == ctx@,
                num_regions == ir.ops[self.op].regions.len(),
                forall|k: int| 0 <= k < num_regions ==> #[trigger] ir.has_body(self.op, k),
                ir.def(self.condition(ir)).ty == Type::signless(1),
                forall|k: int|
                    0 <= k < i ==> ir.blocks[#[trigger] self.entry(ir, k)].args.len() == 0,
        {
            proof {
                assert(ir.has_body(self.op, i as int));
                ir.entry_exit_in_range(self.op, i as int);
            }
            let entry: BlockId = self.get_entry(ctx, i);
            if ctx.num_arguments(entry) != 0 {
                assert(ir.blocks[self.entry(ir, i as int)].args.len() != 0);
                return Err(IfOpVerifyErr::RegionHasArguments);
            }
        }
        if ctx.num_results(self.op) > 0 && !self.has_else_region(ctx) {
            return Err(IfOpVerifyErr::MissingElseRegion);
        }
        Ok(())
    }
}

} // verus!
