//! A loop over an index space of several dimensions.

use crate::cf::op_interfaces::YieldingRegions;
use crate::cf::ops::yield_op::YieldOp;
use crate::index::types::IndexType;
use crate::ir::context::Context;
use crate::ir::model::{BlockView, Def, Ir, OpView, RegionView};
use crate::ir::rewriter::IRRewriter;
use crate::ir::segments::Segments;
use crate::ir::types::{
    BlockId, BlockInsertionPoint, Location, OpId, OpInsertionPoint, OpKind, RegionId, Type, Value,
};
use vstd::prelude::*;

verus! {

/// An N-Dimensional version of [ForOp](crate::cf::ops::ForOp),
/// but without the loop carried variables and related operands/results.
///
/// The body of this op is a region with N entry-block arguments
/// corresponding to the N induction variables. The region of this op
/// takes the induction variables as arguments, and yields zero results.
///
/// ## Operand(s)
/// | operand | description |
/// |-----|-------|
/// | `lower_bounds` | The starting indices of the loop (inclusive). Must be of index type. |
/// | `upper_bounds` | The ending indices of the loop (exclusive). Must be of index type. |
/// | `steps` | The step sizes for each iteration. Must be of index type. |
///
/// ## Region(s)
///   - A single region, with a single block, containing the loop body.
///   The block takes as arguments the loop induction variables, and must
///   end with a [YieldOp] with no operands.
///   Use [ExecuteRegionOp](crate::cf::ops::ExecuteRegionOp) to embed multi-block control flow
///   in the loop body.
#[derive(Debug, Clone, Copy, PartialEq, Eq, Structural, Hash)]
pub struct NDForOp {
    pub op: OpId,
}

impl YieldingRegions<YieldOp> for NDForOp {
    open spec fn yielding_op(&self) -> OpId {
        self.op
    }

    fn get_operation(&self) -> (op: OpId) {
        self.op
    }
}

/// What the parts of the operation are.
impl NDForOp {
    pub open spec fn lower_bounds(self, ir: Ir) -> Seq<Value> {
        ir.ops[self.op].segment(0)
    }

    pub open spec fn upper_bounds(self, ir: Ir) -> Seq<Value> {
        ir.ops[self.op].segment(1)
    }

    pub open spec fn steps(self, ir: Ir) -> Seq<Value> {
        ir.ops[self.op].segment(2)
    }

    pub open spec fn body(self, ir: Ir) -> RegionId {
        ir.ops[self.op].regions[0]
    }

    pub open spec fn entry(self, ir: Ir) -> BlockId {
        ir.entry(self.op, 0)
    }

    pub open spec fn exit(self, ir: Ir) -> BlockId {
        ir.exit(self.op, 0)
    }

    pub open spec fn induction_variables(self, ir: Ir) -> Seq<Value> {
        ir.arguments_from(self.entry(ir), 0)
    }

    pub open spec fn yield_op(self, ir: Ir) -> OpId {
        ir.exit_op(self.op, 0)
    }
}

impl NDForOp {
    /// Get the lower bound operands.
    pub fn get_lower_bounds(&self, ctx: &Context) -> (values: Vec<Value>)
        requires
            ctx@.ops.contains_key(self.op),
            ctx@.ops[self.op].has_segment(0),
        ensures
            values@ == self.lower_bounds(ctx@),
    {
        ctx.get_segment(self.op, 0)
    }

    /// Get the upper bound operands.
    pub fn get_upper_bounds(&self, ctx: &Context) -> (values: Vec<Value>)
        requires
            ctx@.ops.contains_key(self.op),
            ctx@.ops[self.op].has_segment(1),
        ensures
            values@ == self.upper_bounds(ctx@),
    {
        ctx.get_segment(self.op, 1)
    }

    /// Get the step operands.
    pub fn get_steps(&self, ctx: &Context) -> (values: Vec<Value>)
        requires
            ctx@.ops.contains_key(self.op),
            ctx@.ops[self.op].has_segment(2),
        ensures
            values@ == self.steps(ctx@),
    {
        ctx.get_segment(self.op, 2)
    }

    /// Get the induction variables of the loop.
    pub fn get_induction_variables(&self, ctx: &Context) -> (values: Vec<Value>)
        requires
            ctx.wf(),
            ctx@.has_body(self.op, 0),
        ensures
            values@ == self.induction_variables(ctx@),
    {
        proof {
            ctx@.entry_exit_in_range(self.op, 0);
        }
        ctx.arguments_from(self.get_entry(ctx, 0), 0)
    }

    /// Get the number of induction variables (i.e., loop dimensions).
    pub fn get_num_induction_variables(&self, ctx: &Context) -> (n: usize)
        requires
            ctx.wf(),
            ctx@.has_body(self.op, 0),
        ensures
            n == ctx@.blocks[self.entry(ctx@)].args.len(),
            n == self.induction_variables(ctx@).len(),
    {
        proof {
            ctx@.entry_exit_in_range(self.op, 0);
        }
        ctx.num_arguments(self.get_entry(ctx, 0))
    }
}

/// Construction.
impl NDForOp {
    /// The representation with a new loop, in no block, whose body is one empty block.
    pub open spec fn begun(
        ir: Ir,
        lower_bounds: Seq<Value>,
        upper_bounds: Seq<Value>,
        steps: Seq<Value>,
    ) -> Ir {
        let op = ir.op_at(0);
        let region = ir.region_at(0);
        let entry = ir.block_at(0);
        Ir {
            ops: ir.ops.insert(
                op,
                OpView {
                    kind: OpKind::CfNDFor,
                    results: Seq::empty(),
                    operands: lower_bounds + upper_bounds + steps,
                    successors: Seq::empty(),
                    regions: seq![region],
                    segments: seq![
                        lower_bounds.len() as u32,
                        upper_bounds.len() as u32,
                        steps.len() as u32,
                    ],
                    parent: None,
                    loc: Location::Unknown,
                },
            ),
            blocks: ir.blocks.insert(
                entry,
                BlockView {
                    label: Some("entry"@),
                    args: Seq::new(lower_bounds.len(), |i: int| Def::unnamed(Type::Index)),
                    ops: Seq::empty(),
                    parent: region,
                    loc: Location::Unknown,
                },
            ),
            regions: ir.regions.insert(region, RegionView { blocks: seq![entry], parent: op }),
            next_op: ir.next_op + 1,
            next_block: ir.next_block + 1,
            next_region: ir.next_region + 1,
        }
    }

    /// Is this what a body builder is given: the new loop, an insertion point at the start of
    /// its body, and its induction variables?
    pub open spec fn handed_over(
        ir: Ir,
        lower_bounds: Seq<Value>,
        upper_bounds: Seq<Value>,
        steps: Seq<Value>,
        inner: Ir,
        point: OpInsertionPoint,
        indices: Seq<Value>,
    ) -> bool {
        &&& inner == NDForOp::begun(ir, lower_bounds, upper_bounds, steps)
        &&& point == OpInsertionPoint::AtBlockStart(ir.block_at(0))
        &&& indices == inner.arguments_from(ir.block_at(0), 0)
    }

    /// Makes a loop, in no block, whose body is one empty block.
    pub fn begin(
        ctx: &mut Context,
        lower_bounds: Vec<Value>,
        upper_bounds: Vec<Value>,
        steps: Vec<Value>,
    ) -> (this: Self)
        requires
            old(ctx).wf(),
            old(ctx)@.has_values(lower_bounds@),
            old(ctx)@.has_values(upper_bounds@),
            old(ctx)@.has_values(steps@),
            lower_bounds@.len() <= u32::MAX,
            upper_bounds@.len() <= u32::MAX,
            steps@.len() <= u32::MAX,
        ensures
            final(ctx).wf(),
            final(ctx).extends(old(ctx).journal()),
            this.op == old(ctx)@.op_at(0),
            final(ctx)@ == NDForOp::begun(old(ctx)@, lower_bounds@, upper_bounds@, steps@),
            this.lower_bounds(final(ctx)@) == lower_bounds@,
            this.upper_bounds(final(ctx)@) == upper_bounds@,
            this.steps(final(ctx)@) == steps@,
            final(ctx)@.next_block <= usize::MAX,
            final(ctx)@.next_region <= usize::MAX,
    {
        let ghost ir = ctx@;
        let ghost (lbs, ubs, sts) = (lower_bounds@, upper_bounds@, steps@);
        let mut region_arg_types: Vec<Type> = Vec::new();
        for i in 0..lower_bounds.len()
            invariant
                region_arg_types@ == Seq::new(i as nat, |k: int| Type::Index),
        {
            region_arg_types.push(IndexType::get());
            assert(region_arg_types@ =~= Seq::new((i + 1) as nat, |k: int| Type::Index));
        }
        let ghost arg_types = region_arg_types@;
        let groups: Vec<Vec<Value>> = vec![lower_bounds, upper_bounds, steps];
        proof {
            assert(Segments::groups(groups@) =~= seq![lbs, ubs, sts]);
            Segments::flatten_three(lbs, ubs, sts);
        }
        let (operands, segments) = Segments::compute_segment_sizes(groups);
        let ghost all = lbs + ubs + sts;
        assert(operands@ == all);
        assert(segments@ =~= seq![lbs.len() as u32, ubs.len() as u32, sts.len() as u32]);
        assert forall|k: int| 0 <= k < all.len() implies ir.has_value(#[trigger] all[k]) by {
            if k < lbs.len() {
                assert(all[k] == lbs[k]);
            } else if k < lbs.len() + ubs.len() {
                assert(all[k] == ubs[k - lbs.len()]);
            } else {
                assert(all[k] == sts[k - lbs.len() - ubs.len()]);
            }
        }
        let op: OpId = ctx.create_op(
            OpKind::CfNDFor,
            Vec::new(),
            operands,
            Vec::new(),
            1,
            segments,
        );
        let ghost s1 = ctx@;
        proof {
            assert(s1.next_region <= usize::MAX && s1.next_op <= usize::MAX) by {
                reveal(Ir::wf);
            }
            assert(s1.ops[op].regions[0] == ir.region_at(0));
        }
        let region: RegionId = ctx.regions(op)[0];
        let label = String::from_str("entry");
        let entry: BlockId = ctx.create_block(
            BlockInsertionPoint::AtRegionStart(region),
            Some(label),
            region_arg_types,
        );
        proof {
            assert(ctx@.next_block <= usize::MAX) by {
                reveal(Ir::wf);
            }
            assert(forall|r: RegionId| ir.regions.contains_key(r) ==> r < ir.next_region) by {
                reveal(Ir::wf);
            }
            let goal = NDForOp::begun(ir, lbs, ubs, sts);
            assert(ctx@.ops[op] =~= goal.ops[op]);
            assert(ctx@.ops =~= goal.ops);
            assert(ctx@.blocks[entry].args =~= goal.blocks[entry].args);
            assert(ctx@.blocks =~= goal.blocks);
            assert(ctx@.regions[region].blocks =~= seq![entry]);
            assert(ctx@.regions =~= goal.regions);
            NDForOp::made_of(ir, lbs, ubs, sts);
        }
        NDForOp { op }
    }

    /// Create a new `NDForOp` with the specified bounds and steps.
    ///
    /// The body of the loop is populated using the provided `body_builder` function,
    /// which is called with the current induction variable values and an
    /// inserter set to the start of the entry block.
    ///
    /// A [YieldOp] is automatically added at the end of the exit block.
    ///
    /// The builder must accept the new loop, and leave a context in order, with the region of
    /// the loop in place and not empty.
    pub fn new<State, F>(
        ctx: &mut Context,
        lower_bounds: Vec<Value>,
        upper_bounds: Vec<Value>,
        steps: Vec<Value>,
        body_builder: F,
        body_builder_state: State,
    ) -> (this: Self) where F: FnOnce(&mut Context, State, &mut IRRewriter, Vec<Value>) -> ()
        requires
            old(ctx).wf(),
            old(ctx)@.has_values(lower_bounds@),
            old(ctx)@.has_values(upper_bounds@),
            old(ctx)@.has_values(steps@),
            lower_bounds@.len() == upper_bounds@.len() == steps@.len(),
            lower_bounds@.len() <= u32::MAX,
            forall|inner: &mut Context, inserter: &mut IRRewriter, indices: Vec<Value>|
                (*inner).wf() && NDForOp::handed_over(
                    old(ctx)@,
                    lower_bounds@,
                    upper_bounds@,
                    steps@,
                    (*inner)@,
                    (*inserter).insertion_point(),
                    indices@,
                ) ==> #[trigger] call_requires(
                    body_builder,
                    (inner, body_builder_state, inserter, indices),
                ),
            forall|inner: &mut Context, inserter: &mut IRRewriter, indices: Vec<Value>|
                (*inner).wf() && NDForOp::handed_over(
                    old(ctx)@,
                    lower_bounds@,
                    upper_bounds@,
                    steps@,
                    (*inner)@,
                    (*inserter).insertion_point(),
                    indices@,
                ) && #[trigger] call_ensures(
                    body_builder,
                    (inner, body_builder_state, inserter, indices),
                    (),
                ) ==> {
                    &&& (*final(inner)).wf()
                    &&& (*final(inner)).extends((*inner).journal())
                    &&& (*final(inner))@.regions.contains_key(old(ctx)@.region_at(0))
                    &&& (*final(inner))@.regions[old(ctx)@.region_at(0)].blocks.len() > 0
                },
        ensures
            final(ctx).wf(),
            final(ctx).extends(old(ctx).journal()),
            this.op == old(ctx)@.op_at(0),
            exists|inner: &mut Context, inserter: &mut IRRewriter, indices: Vec<Value>|
                {
                    &&& (*inner).wf()
                    &&& NDForOp::handed_over(
                        old(ctx)@,
                        lower_bounds@,
                        upper_bounds@,
                        steps@,
                        (*inner)@,
                        (*inserter).insertion_point(),
                        indices@,
                    )
                    &&& #[trigger] call_ensures(
                        body_builder,
                        (inner, body_builder_state, inserter, indices),
                        (),
                    )
                    &&& final(ctx)@ == YieldOp::yielded(
                        (*final(inner))@,
                        old(ctx)@.region_at(0),
                        Seq::empty(),
                    )
                    &&& YieldOp::closes(
                        (*final(inner))@,
                        final(ctx)@,
                        old(ctx)@.region_at(0),
                        Seq::empty(),
                    )
                },
    {
        // Set up the region and its entry block.
        let this = NDForOp::begin(ctx, lower_bounds, upper_bounds, steps);
        let region: RegionId = ctx.regions(this.op)[0];
        let entry_block: BlockId = ctx.blocks(region)[0];

        // Populate the body.
        let entry_block_args = ctx.arguments_from(entry_block, 0);
        let mut op_inserter = IRRewriter::new(OpInsertionPoint::AtBlockStart(entry_block));
        body_builder(ctx, body_builder_state, &mut op_inserter, entry_block_args);
        YieldOp::append_to(ctx, &mut op_inserter, region, Vec::new());
        this
    }
}

/// Why an [NDForOp] cannot be read.
#[derive(Debug, Clone, Copy, PartialEq, Eq, Structural)]
pub enum NDForOpParseErr {
    NoResultsAllowed,
}

impl NDForOpParseErr {
    /// What is wrong, in words.
    pub open spec fn text(self) -> Seq<char> {
        "NDForOp must not have any results"@
    }

    /// Says what is wrong.
    pub fn message(&self) -> (message: &'static str)
        ensures
            message@ == self.text(),
    {
        "NDForOp must not have any results"
    }
}

/// Why an [NDForOp] is not in order.
#[derive(Debug, Clone, Copy, PartialEq, Eq, Structural)]
pub enum NDForOpVerifyErr {
    SegmentCountMismatch,
    IterArgsCountMismatch,
    InductionVarTypeMismatch,
}

impl NDForOpVerifyErr {
    /// What is wrong, in words.
    pub open spec fn text(self) -> Seq<char> {
        match self {
            NDForOpVerifyErr::SegmentCountMismatch => "NDForOp must have exactly 3 segments corresponding to lower bounds, upper bounds, and steps"@,
            NDForOpVerifyErr::IterArgsCountMismatch => "NDForOp count mismatch: lower bounds, upper bounds, and steps must all have the same number of operands"@,
            NDForOpVerifyErr::InductionVarTypeMismatch => "NDForOp induction variables, lower bounds, upper bounds, and steps must all be of IndexType"@,
        }
    }

    /// Says what is wrong.
    pub fn message(&self) -> (message: &'static str)
        ensures
            message@ == self.text(),
    {
        match self {
            NDForOpVerifyErr::SegmentCountMismatch => "NDForOp must have exactly 3 segments corresponding to lower bounds, upper bounds, and steps",
            NDForOpVerifyErr::IterArgsCountMismatch => "NDForOp count mismatch: lower bounds, upper bounds, and steps must all have the same number of operands",
            NDForOpVerifyErr::InductionVarTypeMismatch => "NDForOp induction variables, lower bounds, upper bounds, and steps must all be of IndexType",
        }
    }
}

/// Verification.
impl NDForOp {
    /// Are there as many lower bounds as upper bounds and steps, and at least one of each?
    pub open spec fn counts_match(self, ir: Ir) -> bool {
        let op = ir.ops[self.op];
        &&& op.segment_size(0) != 0
        &&& op.segment_size(0) == op.segment_size(1)
        &&& op.segment_size(0) == op.segment_size(2)
    }

    /// Does the body take an argument for each of the dimensions?
    pub open spec fn variables_match(self, ir: Ir) -> bool {
        ir.blocks[self.entry(ir)].args.len() == ir.ops[self.op].segment_size(0)
    }

    /// Are all the values of index type?
    pub open spec fn all_index(ir: Ir, values: Seq<Value>) -> bool {
        forall|i: int| 0 <= i < values.len() ==> ir.def(#[trigger] values[i]).ty is Index
    }

    /// Are the induction variables, the lower bounds, the upper bounds and the steps of index
    /// type?
    pub open spec fn indices_match(self, ir: Ir) -> bool {
        &&& NDForOp::all_index(ir, self.induction_variables(ir))
        &&& NDForOp::all_index(ir, self.lower_bounds(ir))
        &&& NDForOp::all_index(ir, self.upper_bounds(ir))
        &&& NDForOp::all_index(ir, self.steps(ir))
    }

    /// What the check finds.
    pub open spec fn verified(self, ir: Ir) -> Result<(), NDForOpVerifyErr> {
        if ir.ops[self.op].segments.len() != 3 {
            Err(NDForOpVerifyErr::SegmentCountMismatch)
        } else if !self.counts_match(ir) || !self.variables_match(ir) {
            Err(NDForOpVerifyErr::IterArgsCountMismatch)
        } else if !self.indices_match(ir) {
            Err(NDForOpVerifyErr::InductionVarTypeMismatch)
        } else {
            Ok(())
        }
    }

    /// Checks that there are as many lower bounds as upper bounds, steps and induction variables,
    /// and that all are of index type. The operands and the body are there if the check gets as
    /// far as them.
    pub fn verify(&self, ctx: &Context) -> (result: Result<(), NDForOpVerifyErr>)
        requires
            ctx.wf(),
            ctx@.ops.contains_key(self.op),
            ctx@.ops[self.op].segments.len() == 3 && self.counts_match(ctx@)
                ==> ctx@.ops[self.op].has_segment(2) && ctx@.has_body(self.op, 0),
        ensures
            result == self.verified(ctx@),
    {
        let ghost ir = ctx@;
        let ghost op = ir.ops[self.op];
        if ctx.num_segments(self.op) != 3 {
            return Err(NDForOpVerifyErr::SegmentCountMismatch);
        }
        if ctx.segment_size(self.op, 0) == 0 || ctx.segment_size(self.op, 0) != ctx.segment_size(
            self.op,
            1,
        ) || ctx.segment_size(self.op, 0) != ctx.segment_size(self.op, 2) {
            return Err(NDForOpVerifyErr::IterArgsCountMismatch);
        }
        if self.get_num_induction_variables(ctx) != ctx.segment_size(self.op, 0) as usize {
            return Err(NDForOpVerifyErr::IterArgsCountMismatch);
        }
        proof {
            ir.operands_there(self.op);
            ir.entry_exit_in_range(self.op, 0);
            op.earlier_segment(0, 2);
            op.earlier_segment(1, 2);
            op.segment_in_range(0);
            op.segment_in_range(1);
            op.segment_in_range(2);
        }
        let variables = self.get_induction_variables(ctx);
        let lower_bounds = self.get_lower_bounds(ctx);
        let upper_bounds = self.get_upper_bounds(ctx);
        let steps = self.get_steps(ctx);
        for i in 0..lower_bounds.len()
            invariant
                ctx.wf(),
                ir == ctx@,
                op == ir.ops[self.op],
                ir.has_values(op.operands),
                ir.blocks.contains_key(self.entry(ir)),
                variables@ == self.induction_variables(ir),
                lower_bounds@ == self.lower_bounds(ir),
                upper_bounds@ == self.upper_bounds(ir),
                steps@ == self.steps(ir),
                variables@.len() == lower_bounds@.len() == upper_bounds@.len() == steps@.len(),
                op.segments.len() == 3,
                self.counts_match(ir) && self.variables_match(ir),
                op.has_segment(0),
                op.has_segment(1),
                op.has_segment(2),
                forall|k: int| 0 <= k < i ==> ir.def(#[trigger] variables@[k]).ty is Index,
                forall|k: int|
                    0 <= k < i ==> ir.def(#[trigger] lower_bounds@[k]).ty is Index,
                forall|k: int|
                    0 <= k < i ==> ir.def(#[trigger] upper_bounds@[k]).ty is Index,
                forall|k: int| 0 <= k < i ==> ir.def(#[trigger] steps@[k]).ty is Index,
        {
            proof {
                op.segment_in_range(0);
                op.segment_in_range(1);
                op.segment_in_range(2);
                assert(lower_bounds@[i as int] == op.operands[op.segment_start(0) + i]);
                assert(upper_bounds@[i as int] == op.operands[op.segment_start(1) + i]);
                assert(steps@[i as int] == op.operands[op.segment_start(2) + i]);
            }
            if ctx.type_of(variables[i]) != IndexType::get() || ctx.type_of(lower_bounds[i])
                != IndexType::get() || ctx.type_of(upper_bounds[i]) != IndexType::get()
                || ctx.type_of(steps[i]) != IndexType::get() {
                return Err(NDForOpVerifyErr::InductionVarTypeMismatch);
            }
        }
        Ok(())
    }
}

} // verus!
