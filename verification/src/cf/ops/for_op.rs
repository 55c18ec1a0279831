//! A loop over an index range.

use crate::cf::op_interfaces::YieldingRegions;
use crate::cf::ops::yield_op::{same_types, YieldOp};
use crate::index::types::IndexType;
use crate::ir::context::Context;
use crate::ir::model::{BlockView, Def, Ir, OpView, RegionView};
use crate::ir::rewriter::IRRewriter;
use crate::ir::segments::Segments;
use crate::ir::text::Text;
use crate::ir::types::{
    BlockId, BlockInsertionPoint, Location, OpId, OpInsertionPoint, OpKind, RegionId, Type, Value,
};
use vstd::prelude::*;

verus! {

/// Represents a `for` loop with an initial value, an upper bound, and a step.
/// Additional loop-carried variables can be specified as operands and results.
/// The loop body is defined in a region that takes the loop induction variable
/// and loop-carried variables as arguments and yields updated loop-carried variables.
///
/// ## Operand(s)
/// | operand | description |
/// |-----|-------|
/// | `lower_bound` | The starting index of the loop (inclusive). Must be of index type. |
/// | `upper_bound` | The ending index of the loop (exclusive). Must be of index type. |
/// | `step` | The step size for each iteration. Must be of index type. |
/// | `iter_args_init` | (variadic) Initial values for additional loop-carried variables. |
///
/// ## Result(s)
/// | result | description |
/// |-----|-------|
/// | `iter_args_res` | (variadic) Updated loop-carried variables after loop completion. |
///
/// ## Region(s)
///   - A single region, with a single block, containing the loop body.
///   The block takes as arguments the loop induction variable followed by
///   the loop-carried variables, and must `yield` the updated loop-carried
///   variables at the end of each iteration.
///   Use [ExecuteRegionOp](crate::cf::ops::ExecuteRegionOp) to embed multi-block control flow
///   in the loop body.
#[derive(Debug, Clone, Copy, PartialEq, Eq, Structural, Hash)]
pub struct ForOp {
    pub op: OpId,
}

impl YieldingRegions<YieldOp> for ForOp {
    open spec fn yielding_op(&self) -> OpId {
        self.op
    }

    fn get_operation(&self) -> (op: OpId) {
        self.op
    }
}

/// What the parts of the operation are.
impl ForOp {
    /// Does the operation have at least `n` of the operands that bound the loop?
    pub open spec fn has_bounds(self, ir: Ir, n: int) -> bool {
        &&& ir.ops.contains_key(self.op)
        &&& ir.ops[self.op].has_segment(0)
        &&& n <= ir.ops[self.op].segments[0]
    }

    pub open spec fn lower_bound(self, ir: Ir) -> Value {
        ir.ops[self.op].segment(0)[0]
    }

    pub open spec fn upper_bound(self, ir: Ir) -> Value {
        ir.ops[self.op].segment(0)[1]
    }

    pub open spec fn step(self, ir: Ir) -> Value {
        ir.ops[self.op].segment(0)[2]
    }

    pub open spec fn iter_args_init(self, ir: Ir) -> Seq<Value> {
        ir.ops[self.op].segment(1)
    }

    pub open spec fn body(self, ir: Ir) -> RegionId {
        ir.ops[self.op].regions[0]
    }

    pub open spec fn entry(self, ir: Ir) -> BlockId {
        ir.entry(self.op, 0)
    }

    pub open spec fn exit(self, ir: Ir) -> BlockId {
        ir.exit(self.op, 0)
    }

    pub open spec fn yield_op(self, ir: Ir) -> OpId {
        ir.exit_op(self.op, 0)
    }

    pub open spec fn induction_variable(self, ir: Ir) -> Value {
        Value::BlockArgument { block: self.entry(ir), idx: 0 }
    }
}

impl ForOp {
    /// Get the lower bound operand.
    pub fn get_lower_bound(&self, ctx: &Context) -> (v: Value)
        requires
            self.has_bounds(ctx@, 1),
        ensures
            v == self.lower_bound(ctx@),
    {
        proof {
            ctx@.ops[self.op].segment_in_range(0);
        }
        ctx.get_segment(self.op, 0)[0]
    }

    /// Get the upper bound operand.
    pub fn get_upper_bound(&self, ctx: &Context) -> (v: Value)
        requires
            self.has_bounds(ctx@, 2),
        ensures
            v == self.upper_bound(ctx@),
    {
        proof {
            ctx@.ops[self.op].segment_in_range(0);
        }
        ctx.get_segment(self.op, 0)[1]
    }

    /// Get the step operand.
    pub fn get_step(&self, ctx: &Context) -> (v: Value)
        requires
            self.has_bounds(ctx@, 3),
        ensures
            v == self.step(ctx@),
    {
        proof {
            ctx@.ops[self.op].segment_in_range(0);
        }
        ctx.get_segment(self.op, 0)[2]
    }

    /// Get initial values of the loop carried variables.
    pub fn get_iter_args_init(&self, ctx: &Context) -> (values: Vec<Value>)
        requires
            ctx@.ops.contains_key(self.op),
            ctx@.ops[self.op].has_segment(1),
        ensures
            values@ == self.iter_args_init(ctx@),
    {
        ctx.get_segment(self.op, 1)
    }

    /// Get number of loop carried variables initializers
    pub fn get_num_iter_arg_inits(&self, ctx: &Context) -> (n: u32)
        requires
            ctx@.ops.contains_key(self.op),
        ensures
            n == ctx@.ops[self.op].segment_size(1),
            ctx@.ops[self.op].has_segment(1) ==> n == self.iter_args_init(ctx@).len(),
    {
        proof {
            if ctx@.ops[self.op].has_segment(1) {
                ctx@.ops[self.op].segment_in_range(1);
            }
        }
        ctx.segment_size(self.op, 1)
    }

    /// Get the induction variable of the loop.
    pub fn get_induction_variable(&self, ctx: &Context) -> (v: Value)
        requires
            ctx.wf(),
            ctx@.has_body(self.op, 0),
            ctx@.blocks[self.entry(ctx@)].args.len() > 0,
        ensures
            v == self.induction_variable(ctx@),
            ctx@.has_value(v),
    {
        proof {
            ctx@.entry_exit_in_range(self.op, 0);
        }
        Value::BlockArgument { block: self.get_entry(ctx, 0), idx: 0 }
    }

    /// Get the loop carried variables (block arguments).
    pub fn get_loop_carried_variables(&self, ctx: &Context) -> (values: Vec<Value>)
        requires
            ctx.wf(),
            ctx@.has_body(self.op, 0),
        ensures
            values@ == ctx@.arguments_from(self.entry(ctx@), 1),
            values@ == self.loop_carried_variables(ctx@),
            ctx@.blocks[self.entry(ctx@)].args.len() > 0 ==> values@.len() + 1 == ctx@.blocks[
            self.entry(ctx@)].args.len(),
    {
        proof {
            ctx@.entry_exit_in_range(self.op, 0);
        }
        ctx.arguments_from(self.get_entry(ctx, 0), 1)
    }
}

/// Construction.
impl ForOp {
    /// The name of the argument of the body that stands for the `i`th loop-carried variable:
    /// that of its initial value, or else one made from its number.
    pub open spec fn variable_name(ir: Ir, inits: Seq<Value>, i: int) -> Seq<char> {
        match ir.def(inits[i]).name {
            Some(name) => name,
            None => "loop_var_"@ + Text::decimal(i as nat),
        }
    }

    /// The arguments of the body: the induction variable, then the loop-carried variables.
    pub open spec fn body_args(ir: Ir, inits: Seq<Value>) -> Seq<Def> {
        Seq::new(
            inits.len() + 1,
            |i: int|
                if i == 0 {
                    Def { ty: Type::Index, name: Some("iv"@) }
                } else {
                    Def {
                        ty: ir.def(inits[i - 1]).ty,
                        name: Some(ForOp::variable_name(ir, inits, i - 1)),
                    }
                },
        )
    }

    /// The representation with a new loop, in no block, whose body is one empty block.
    pub open spec fn begun(
        ir: Ir,
        lower_bound: Value,
        upper_bound: Value,
        step: Value,
        inits: Seq<Value>,
    ) -> Ir {
        let op = ir.op_at(0);
        let region = ir.region_at(0);
        let entry = ir.block_at(0);
        Ir {
            ops: ir.ops.insert(
                op,
                OpView {
                    kind: OpKind::CfFor,
                    results: Def::all_unnamed(ir.types_of(inits)),
                    operands: seq![lower_bound, upper_bound, step] + inits,
                    successors: Seq::empty(),
                    regions: seq![region],
                    segments: seq![3u32, inits.len() as u32],
                    parent: None,
                    loc: Location::Unknown,
                },
            ),
            blocks: ir.blocks.insert(
                entry,
                BlockView {
                    label: Some("entry"@),
                    args: ForOp::body_args(ir, inits),
                    ops: Seq::empty(),
                    parent: region,
                    loc: Location::Unknown,
                },
            ),
            regions: ir.regions.insert(region, RegionView { blocks: seq![entry], parent: op }),
            next_op: ir.next_op + 1,
            next_block: ir.next_block + 1,
            next_region: ir.next_region + 1,
        }
    }

    /// Makes a loop, in no block, whose body is one empty block.
    pub fn begin(
        ctx: &mut Context,
        lower_bound: Value,
        upper_bound: Value,
        step: Value,
        iter_args_init: &Vec<Value>,
    ) -> (this: Self)
        requires
            old(ctx).wf(),
            old(ctx)@.has_value(lower_bound),
            old(ctx)@.has_value(upper_bound),
            old(ctx)@.has_value(step),
            old(ctx)@.has_values(iter_args_init@),
            iter_args_init@.len() <= u32::MAX,
        ensures
            final(ctx).wf(),
            final(ctx).extends(old(ctx).journal()),
            this.op == old(ctx)@.op_at(0),
            final(ctx)@ == ForOp::begun(
                old(ctx)@,
                lower_bound,
                upper_bound,
                step,
                iter_args_init@,
            ),
            this.lower_bound(final(ctx)@) == lower_bound,
            this.upper_bound(final(ctx)@) == upper_bound,
            this.step(final(ctx)@) == step,
            this.iter_args_init(final(ctx)@) == iter_args_init@,
            final(ctx)@.next_op <= usize::MAX,
            final(ctx)@.next_block <= usize::MAX,
            final(ctx)@.next_region <= usize::MAX,
    {
        let ghost ir = ctx@;
        let ghost inits = iter_args_init@;
        let result_types = ctx.types_of(iter_args_init);
        let mut region_arg_types: Vec<Type> = vec![IndexType::get()];
        region_arg_types.extend_from_slice(result_types.as_slice());
        let mut names: Vec<String> = vec![String::from_str("iv")];
        for i in 0..iter_args_init.len()
            invariant
                ir == ctx@,
                inits == iter_args_init@,
                ir.has_values(inits),
                names@.len() == i + 1,
                names@[0]@ == "iv"@,
                forall|k: int|
                    1 <= k <= i ==> (#[trigger] names@[k])@ == ForOp::variable_name(
                        ir,
                        inits,
                        k - 1,
                    ),
        {
            let name: String = match ctx.name_of(iter_args_init[i]) {
                Some(name) => name,
                None => {
                    let mut name = String::from_str("loop_var_");
                    name.append(Text::write_decimal(i).as_str());
                    name
                },
            };
            names.push(name);
        }
        let bounds: Vec<Value> = vec![lower_bound, upper_bound, step];
        let mut inits_copy: Vec<Value> = Vec::new();
        inits_copy.extend_from_slice(iter_args_init.as_slice());
        assert(bounds@ =~= seq![lower_bound, upper_bound, step]);
        assert(inits_copy@ =~= inits);
        let groups: Vec<Vec<Value>> = vec![bounds, inits_copy];
        proof {
            assert(Segments::groups(groups@) =~= seq![
                seq![lower_bound, upper_bound, step],
                inits,
            ]);
            Segments::flatten_two(seq![lower_bound, upper_bound, step], inits);
        }
        let (operands, segments) = Segments::compute_segment_sizes(groups);
        let ghost all = seq![lower_bound, upper_bound, step] + inits;
        assert(operands@ == all);
        assert(segments@ =~= seq![3u32, inits.len() as u32]);
        assert forall|k: int| 0 <= k < all.len() implies ir.has_value(#[trigger] all[k]) by {
            if k >= 3 {
                assert(all[k] == inits[k - 3]);
            }
        }
        let ghost arg_types = region_arg_types@;
        assert(arg_types =~= seq![Type::Index] + ir.types_of(inits));

        let op: OpId = ctx.create_op(
            OpKind::CfFor,
            result_types,
            operands,
            Vec::new(),
            1,
            segments,
        );
        let ghost s1 = ctx@;
        proof {
            assert(s1.next_region <= usize::MAX && s1.next_op <= usize::MAX) by {
                reveal(Ir::wf);
            }
            assert(s1.ops[op].regions[0] == ir.region_at(0));
        }
        let region: RegionId = ctx.regions(op)[0];
        let label = String::from_str("entry");
        let entry: BlockId = ctx.create_block(
            BlockInsertionPoint::AtRegionStart(region),
            Some(label),
            region_arg_types,
        );
        let ghost s2 = ctx@;
        proof {
            assert(s2.next_block <= usize::MAX) by {
                reveal(Ir::wf);
            }
            assert(!ir.regions.contains_key(region) && !ir.blocks.contains_key(entry)) by {
                reveal(Ir::wf);
            }
            assert(forall|r: RegionId| ir.regions.contains_key(r) ==> r < ir.next_region) by {
                reveal(Ir::wf);
            }
        }
        let num_args: usize = names.len();
        let ghost args = ForOp::body_args(ir, inits);
        proof {
            let unnamed = s2.blocks[entry].args;
            assert(args.take(0) + unnamed.skip(0) =~= unnamed);
            assert(s2.blocks.insert(entry, BlockView { args: unnamed, ..s2.blocks[entry] })
                =~= s2.blocks);
        }
        for idx in 0..num_args
            invariant
                ctx.wf(),
                ctx.extends(old(ctx).journal()),
                num_args == names@.len() == args.len(),
                args.len() == inits.len() + 1,
                args == ForOp::body_args(ir, inits),
                names@[0]@ == "iv"@,
                forall|k: int|
                    1 <= k < names@.len() ==> (#[trigger] names@[k])@ == ForOp::variable_name(
                        ir,
                        inits,
                        k - 1,
                    ),
                s2.blocks.contains_key(entry),
                s2.blocks[entry].args.len() == args.len(),
                forall|k: int|
                    0 <= k < args.len() ==> (#[trigger] s2.blocks[entry].args[k]).ty == args[k].ty,
                ctx@ == (Ir {
                    blocks: s2.blocks.insert(
                        entry,
                        BlockView {
                            args: args.take(idx as int) + s2.blocks[entry].args.skip(idx as int),
                            ..s2.blocks[entry]
                        },
                    ),
                    ..s2
                }),
        {
            let name = names[idx].clone();
            let ghost before = ctx@;
            ctx.name_argument(entry, idx, name);
            proof {
                let done = args.take(idx as int) + s2.blocks[entry].args.skip(idx as int);
                assert(done.update(idx as int, Def { name: Some(name@), ..done[idx as int] })
                    =~= args.take(idx + 1) + s2.blocks[entry].args.skip(idx + 1));
                assert(ctx@.blocks =~= s2.blocks.insert(
                    entry,
                    BlockView {
                        args: args.take(idx + 1) + s2.blocks[entry].args.skip(idx + 1),
                        ..s2.blocks[entry]
                    },
                ));
            }
        }
        proof {
            let goal = ForOp::begun(ir, lower_bound, upper_bound, step, inits);
            assert(args.take(num_args as int) + s2.blocks[entry].args.skip(num_args as int)
                =~= args);
            assert(ctx@.ops[op] =~= goal.ops[op]);
            assert(ctx@.ops =~= goal.ops);
            assert(ctx@.blocks =~= goal.blocks);
            assert(ctx@.regions[region].blocks =~= seq![entry]);
            assert(ctx@.regions =~= goal.regions);
            ForOp::made_of(ir, lower_bound, upper_bound, step, inits);
        }
        ForOp { op }
    }
}

impl ForOp {
    /// Is this what a body builder is given: the new loop, an insertion point at the start of
    /// its body, and its loop-carried variables?
    pub open spec fn handed_over(
        ir: Ir,
        lower_bound: Value,
        upper_bound: Value,
        step: Value,
        inits: Seq<Value>,
        inner: Ir,
        point: OpInsertionPoint,
        args: Seq<Value>,
    ) -> bool {
        &&& inner == ForOp::begun(ir, lower_bound, upper_bound, step, inits)
        &&& point == OpInsertionPoint::AtBlockStart(ir.block_at(0))
        &&& args == inner.arguments_from(ir.block_at(0), 1)
    }

    /// Creates a new `ForOp` with the specified bounds, step and initial loop carried variables.
    ///
    /// The `body_builder` function is called to populate the body of the region.
    ///   - This function is provided with the current index value and loop carried variables as arguments.
    ///   - It is also provided with an inserter, set to the start of the entry block.
    ///   - It must return the updated / result loop carried variables of an iteration;
    ///
    /// A [YieldOp] is automatically added at end of the body, taking these results as operands.
    ///
    /// The builder must accept the new loop, and leave a context in order, with the region of
    /// the loop in place and not empty, and the values that it returns there.
    pub fn new<State, F>(
        ctx: &mut Context,
        lower_bound: Value,
        upper_bound: Value,
        step: Value,
        iter_args_init: &Vec<Value>,
        body_builder: F,
        body_builder_state: State,
    ) -> (this: Self) where
        F: FnOnce(&mut Context, State, &mut IRRewriter, Value, &[Value]) -> Vec<Value>,

        requires
            old(ctx).wf(),
            old(ctx)@.has_value(lower_bound),
            old(ctx)@.has_value(upper_bound),
            old(ctx)@.has_value(step),
            old(ctx)@.has_values(iter_args_init@),
            iter_args_init@.len() <= u32::MAX,
            forall|inner: &mut Context, inserter: &mut IRRewriter, args: &[Value]|
                (*inner).wf() && ForOp::handed_over(
                    old(ctx)@,
                    lower_bound,
                    upper_bound,
                    step,
                    iter_args_init@,
                    (*inner)@,
                    (*inserter).insertion_point(),
                    args@,
                ) ==> #[trigger] call_requires(
                    body_builder,
                    (
                        inner,
                        body_builder_state,
                        inserter,
                        Value::BlockArgument { block: old(ctx)@.block_at(0), idx: 0 },
                        args,
                    ),
                ),
            forall|
                inner: &mut Context,
                inserter: &mut IRRewriter,
                args: &[Value],
                yields: Vec<Value>,
            |
                (*inner).wf() && ForOp::handed_over(
                    old(ctx)@,
                    lower_bound,
                    upper_bound,
                    step,
                    iter_args_init@,
                    (*inner)@,
                    (*inserter).insertion_point(),
                    args@,
                ) && #[trigger] call_ensures(
                    body_builder,
                    (
                        inner,
                        body_builder_state,
                        inserter,
                        Value::BlockArgument { block: old(ctx)@.block_at(0), idx: 0 },
                        args,
                    ),
                    yields,
                ) ==> {
                    &&& (*final(inner)).wf()
                    &&& (*final(inner)).extends((*inner).journal())
                    &&& (*final(inner))@.regions.contains_key(old(ctx)@.region_at(0))
                    &&& (*final(inner))@.regions[old(ctx)@.region_at(0)].blocks.len() > 0
                    &&& (*final(inner))@.has_values(yields@)
                },
        ensures
            final(ctx).wf(),
            final(ctx).extends(old(ctx).journal()),
            this.op == old(ctx)@.op_at(0),
            exists|
                inner: &mut Context,
                inserter: &mut IRRewriter,
                args: &[Value],
                yields: Vec<Value>,
            |
                {
                    &&& (*inner).wf()
                    &&& ForOp::handed_over(
                        old(ctx)@,
                        lower_bound,
                        upper_bound,
                        step,
                        iter_args_init@,
                        (*inner)@,
                        (*inserter).insertion_point(),
                        args@,
                    )
                    &&& #[trigger] call_ensures(
                        body_builder,
                        (
                            inner,
                            body_builder_state,
                            inserter,
                            Value::BlockArgument { block: old(ctx)@.block_at(0), idx: 0 },
                            args,
                        ),
                        yields,
                    )
                    &&& final(ctx)@ == YieldOp::yielded(
                        (*final(inner))@,
                        old(ctx)@.region_at(0),
                        yields@,
                    )
                    &&& YieldOp::closes(
                        (*final(inner))@,
                        final(ctx)@,
                        old(ctx)@.region_at(0),
                        yields@,
                    )
                },
    {
        let ghost ir = ctx@;
        // Set up the region, its entry block and arguments.
        let this = ForOp::begin(ctx, lower_bound, upper_bound, step, iter_args_init);
        let ghost begun = ctx@;
        let region: RegionId = ctx.regions(this.op)[0];
        let entry_block: BlockId = ctx.blocks(region)[0];

        // Populate the body.
        let iter_args = ctx.arguments_from(entry_block, 1);
        let mut op_inserter = IRRewriter::new(OpInsertionPoint::AtBlockStart(entry_block));
        let yield_values = body_builder(
            ctx,
            body_builder_state,
            &mut op_inserter,
            Value::BlockArgument { block: entry_block, idx: 0 },
            iter_args.as_slice(),
        );
        YieldOp::append_to(ctx, &mut op_inserter, region, yield_values);
        this
    }
}

/// Why a [ForOp] is not in order.
#[derive(Debug, Clone, Copy, PartialEq, Eq, Structural)]
pub enum ForOpVerifyErr {
    IterArgsCountMismatch,
    InductionVarTypeMismatch,
    IterArgsTypeMismatch,
}

impl ForOpVerifyErr {
    /// What is wrong, in words.
    pub open spec fn text(self) -> Seq<char> {
        match self {
            ForOpVerifyErr::IterArgsCountMismatch => "ForOp count mismatch: iter args initializers, number of results, loop carried variables"@,
            ForOpVerifyErr::InductionVarTypeMismatch => "ForOp induction variable, lower bound, upper bound, and step types must all be IndexType"@,
            ForOpVerifyErr::IterArgsTypeMismatch => "ForOp result types, iter args initializers, and loop carried variable types must match"@,
        }
    }

    /// Says what is wrong.
    pub fn message(&self) -> (message: &'static str)
        ensures
            message@ == self.text(),
    {
        match self {
            ForOpVerifyErr::IterArgsCountMismatch => "ForOp count mismatch: iter args initializers, number of results, loop carried variables",
            ForOpVerifyErr::InductionVarTypeMismatch => "ForOp induction variable, lower bound, upper bound, and step types must all be IndexType",
            ForOpVerifyErr::IterArgsTypeMismatch => "ForOp result types, iter args initializers, and loop carried variable types must match",
        }
    }
}

/// Verification.
impl ForOp {
    /// The loop-carried variables, as the body sees them.
    pub open spec fn loop_carried_variables(self, ir: Ir) -> Seq<Value> {
        ir.arguments_from(self.entry(ir), 1)
    }

    /// Are there as many results as initial values and loop-carried variables?
    pub open spec fn counts_match(self, ir: Ir) -> bool {
        let n = ir.ops[self.op].results.len();
        n == self.iter_args_init(ir).len() && n == self.loop_carried_variables(ir).len()
    }

    /// Do the results have the types of the initial values and of the loop-carried variables?
    pub open spec fn types_match(self, ir: Ir) -> bool {
        let types = ir.ops[self.op].results.map_values(|d: Def| d.ty);
        types == ir.types_of(self.iter_args_init(ir)) && types == ir.types_of(
            self.loop_carried_variables(ir),
        )
    }

    /// Are the induction variable, the bounds and the step of index type?
    pub open spec fn indices_match(self, ir: Ir) -> bool {
        &&& ir.def(self.induction_variable(ir)).ty is Index
        &&& ir.def(self.lower_bound(ir)).ty is Index
        &&& ir.def(self.upper_bound(ir)).ty is Index
        &&& ir.def(self.step(ir)).ty is Index
    }

    /// What the check finds.
    pub open spec fn verified(self, ir: Ir) -> Result<(), ForOpVerifyErr> {
        if !self.counts_match(ir) {
            Err(ForOpVerifyErr::IterArgsCountMismatch)
        } else if !self.types_match(ir) {
            Err(ForOpVerifyErr::IterArgsTypeMismatch)
        } else if !self.indices_match(ir) {
            Err(ForOpVerifyErr::InductionVarTypeMismatch)
        } else {
            Ok(())
        }
    }

    /// Checks that the loop-carried variables, their initial values and the results agree.
    pub(crate) fn verify_iter_args(&self, ctx: &Context) -> (result: Result<(), ForOpVerifyErr>)
        requires
            ctx.wf(),
            ctx@.has_body(self.op, 0),
            ctx@.ops[self.op].has_segment(1),
        ensures
            result == (if !self.counts_match(ctx@) {
                Err(ForOpVerifyErr::IterArgsCountMismatch)
            } else if !self.types_match(ctx@) {
                Err(ForOpVerifyErr::IterArgsTypeMismatch)
            } else {
                Ok(())
            }),
    {
        let ghost ir = ctx@;
        proof {
            ir.entry_exit_in_range(self.op, 0);
            ir.operands_there(self.op);
            ir.ops[self.op].segment_in_range(1);
        }
        let result_types = ctx.result_types(self.op);
        let iter_args_init = self.get_iter_args_init(ctx);
        let loop_carried_vars = self.get_loop_carried_variables(ctx);
        if result_types.len() != iter_args_init.len() || result_types.len()
            != loop_carried_vars.len() {
            return Err(ForOpVerifyErr::IterArgsCountMismatch);
        }
        assert forall|i: int| 0 <= i < iter_args_init@.len() implies ir.has_value(
            #[trigger] iter_args_init@[i],
        ) by {
            let start = ir.ops[self.op].segment_start(1);
            assert(iter_args_init@[i] == ir.ops[self.op].operands[start + i]);
        }
        let num_args: usize = ctx.num_arguments(self.get_entry(ctx, 0));
        assert forall|i: int| 0 <= i < loop_carried_vars@.len() implies ir.has_value(
            #[trigger] loop_carried_vars@[i],
        ) by {}
        // Verify that the types of results, initializers, and loop-carried variables match.
        let init_types = ctx.types_of(&iter_args_init);
        let var_types = ctx.types_of(&loop_carried_vars);
        if !same_types(&result_types, &init_types) || !same_types(&result_types, &var_types) {
            return Err(ForOpVerifyErr::IterArgsTypeMismatch);
        }
        Ok(())
    }

    /// Checks that the loop-carried variables, their initial values and the results agree, and
    /// that indices are of index type. The initial values and the body are there; the bounds
    /// and the induction variable are there if the check gets as far as them.
    pub fn verify(&self, ctx: &Context) -> (result: Result<(), ForOpVerifyErr>)
        requires
            ctx.wf(),
            ctx@.has_body(self.op, 0),
            ctx@.ops[self.op].has_segment(1),
            self.counts_match(ctx@) && self.types_match(ctx@) ==> ctx@.ops[self.op].segments[0] >= 3
                && ctx@.blocks[self.entry(ctx@)].args.len() > 0,
        ensures
            result == self.verified(ctx@),
    {
        let ghost ir = ctx@;
        match self.verify_iter_args(ctx) {
            Ok(()) => {},
            Err(err) => {
                return Err(err);
            },
        }
        proof {
            ir.entry_exit_in_range(self.op, 0);
            ir.operands_there(self.op);
            ir.ops[self.op].earlier_segment(0, 1);
            ir.ops[self.op].segment_in_range(0);
        }
        let lower_bound: Value = self.get_lower_bound(ctx);
        let upper_bound: Value = self.get_upper_bound(ctx);
        let step: Value = self.get_step(ctx);
        let iv: Value = self.get_induction_variable(ctx);
        proof {
            let start = ir.ops[self.op].segment_start(0);
            assert(lower_bound == ir.ops[self.op].operands[start + 0]);
            assert(upper_bound == ir.ops[self.op].operands[start + 1]);
            assert(step == ir.ops[self.op].operands[start + 2]);
        }
        if ctx.type_of(iv) != IndexType::get() || ctx.type_of(lower_bound) != IndexType::get()
            || ctx.type_of(upper_bound) != IndexType::get() || ctx.type_of(step)
            != IndexType::get() {
            return Err(ForOpVerifyErr::InductionVarTypeMismatch);
        }
        Ok(())
    }
}

} // verus!
