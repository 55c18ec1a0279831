//! What a new operation is made of: exactly what its constructor is given.

use crate::cf::ops::{ExecuteRegionOp, ForOp, IfOp, NDForOp, YieldOp};
use crate::ir::model::{BlockView, Ir, RegionView};
use crate::ir::text::Text;
use crate::ir::types::{BlockId, Location, OpId, OpInsertionPoint, RegionId, Type, Value};
use vstd::prelude::*;

verus! {

impl Ir {
    /// Has nothing happened to `before` but that `op` was made, with one region in which `entry`
    /// is the only block, and that block is empty? The three are the next ones of their kind.
    pub open spec fn made_body(
        self,
        before: Ir,
        op: OpId,
        region: RegionId,
        entry: BlockId,
    ) -> bool {
        &&& op == before.next_op
        &&& region == before.next_region
        &&& entry == before.next_block
        &&& self.next_op == before.next_op + 1
        &&& self.next_region == before.next_region + 1
        &&& self.next_block == before.next_block + 1
        &&& self.ops == before.ops.insert(op, self.ops[op])
        &&& self.blocks == before.blocks.insert(entry, self.blocks[entry])
        &&& self.regions == before.regions.insert(
            region,
            RegionView { blocks: seq![entry], parent: op },
        )
        &&& self.ops[op].regions == seq![region]
        &&& self.ops[op].successors.len() == 0
        &&& self.ops[op].parent is None
        &&& self.ops[op].loc == Location::Unknown
        &&& self.blocks[entry].label == Some("entry"@)
        &&& self.blocks[entry].ops.len() == 0
        &&& self.blocks[entry].parent == region
        &&& self.blocks[entry].loc == Location::Unknown
    }
}

impl YieldOp {
    /// A new `YieldOp` yields what it was given, and is nothing else.
    pub proof fn made_of(ir: Ir, results: Seq<Value>)
        ensures
            ({
                let op = ir.op_at(0);
                let done = ir.with_op(YieldOp::view(results));
                let view = done.ops[op];
                &&& view.kind is CfYield
                &&& view.operands == results
                &&& view.results.len() == 0
                &&& view.successors.len() == 0
                &&& view.regions.len() == 0
                &&& view.parent is None
                &&& done.made_op(ir, op)
            }),
    {
    }

    /// What is appended to a region is a `YieldOp` with the given values, behind all operations of
    /// the last block. Nothing else changes.
    pub proof fn appended_last(ir: Ir, region: RegionId, results: Seq<Value>)
        requires
            ir.next_op <= usize::MAX,
            ir.regions[region].blocks.len() > 0,
        ensures
            ({
                let done = YieldOp::yielded(ir, region, results);
                let y = ir.next_op as OpId;
                let n = ir.regions[region].blocks.len() - 1;
                let exit = ir.regions[region].blocks[n];
                &&& done.ops[y].kind is CfYield
                &&& done.ops[y].operands == results
                &&& done.ops[y].results.len() == 0
                &&& done.ops[y].successors.len() == 0
                &&& done.ops[y].regions.len() == 0
                &&& done.ops[y].parent == Some(exit)
                &&& done.blocks[exit].ops == ir.blocks[exit].ops + seq![y]
                &&& done.blocks[exit] == (BlockView {
                    ops: done.blocks[exit].ops,
                    ..ir.blocks[exit]
                })
                &&& done == (Ir {
                    ops: ir.ops.insert(y, done.ops[y]),
                    blocks: ir.blocks.insert(exit, done.blocks[exit]),
                    next_op: ir.next_op + 1,
                    ..ir
                })
            }),
    {
        let done = YieldOp::yielded(ir, region, results);
        let y = ir.next_op as OpId;
        let exit = ir.regions[region].blocks[ir.regions[region].blocks.len() - 1];
        assert(done.blocks[exit].ops =~= ir.blocks[exit].ops + seq![y]);
        assert(done.ops =~= ir.ops.insert(y, done.ops[y]));
        assert(done.blocks =~= ir.blocks.insert(exit, done.blocks[exit]));
    }
}

impl ForOp {
    /// A new loop has the bounds, the step and the initial values that it was given, in that
    /// order. It has a result of the type of each initial value. Its body takes an index, called
    /// `iv`, and a value of the type of each initial value, which is called as that is, or else
    /// by its number.
    pub proof fn made_of(
        ir: Ir,
        lower_bound: Value,
        upper_bound: Value,
        step: Value,
        inits: Seq<Value>,
    )
        requires
            ir.next_op < usize::MAX,
            ir.next_block < usize::MAX,
            ir.next_region < usize::MAX,
            inits.len() <= u32::MAX,
        ensures
            ({
                let done = ForOp::begun(ir, lower_bound, upper_bound, step, inits);
                let op = ir.op_at(0);
                let entry = ir.block_at(0);
                let view = done.ops[op];
                let args = done.blocks[entry].args;
                let this = ForOp { op };
                &&& done.made_body(ir, op, ir.region_at(0), entry)
                &&& view.kind is CfFor
                &&& view.operands.len() == inits.len() + 3
                &&& view.operands[0] == lower_bound
                &&& view.operands[1] == upper_bound
                &&& view.operands[2] == step
                &&& forall|i: int| 0 <= i < inits.len() ==> view.operands[i + 3] == #[trigger] inits[i]
                &&& view.results.len() == inits.len()
                &&& forall|i: int|
                    0 <= i < inits.len() ==> (#[trigger] view.results[i]).ty == ir.def(inits[i]).ty
                        && view.results[i].name is None
                &&& args.len() == inits.len() + 1
                &&& args[0].ty is Index
                &&& args[0].name == Some("iv"@)
                &&& forall|i: int|
                    0 <= i < inits.len() ==> args[i + 1].ty == ir.def(#[trigger] inits[i]).ty && (
                    ir.def(inits[i]).name is Some ==> args[i + 1].name == ir.def(inits[i]).name)
                        && (ir.def(inits[i]).name is None ==> args[i + 1].name == Some(
                        "loop_var_"@ + Text::decimal(i as nat),
                    ))
                &&& this.lower_bound(done) == lower_bound
                &&& this.upper_bound(done) == upper_bound
                &&& this.step(done) == step
                &&& this.iter_args_init(done) == inits
                &&& this.entry(done) == entry
                &&& this.induction_variable(done) == (Value::BlockArgument { block: entry, idx: 0 })
                &&& this.loop_carried_variables(done).len() == inits.len()
                &&& forall|i: int|
                    0 <= i < inits.len() ==> #[trigger] this.loop_carried_variables(done)[i]
                        == (Value::BlockArgument { block: entry, idx: (i + 1) as usize })
            }),
    {
        let done = ForOp::begun(ir, lower_bound, upper_bound, step, inits);
        let op = ir.op_at(0);
        let entry = ir.block_at(0);
        let view = done.ops[op];
        assert(done.ops =~= ir.ops.insert(op, view));
        assert(done.blocks =~= ir.blocks.insert(entry, done.blocks[entry]));
        view.two_starts();
        assert(view.segment(0) =~= seq![lower_bound, upper_bound, step]);
        assert(view.segment(1) =~= inits);
    }
}

impl NDForOp {
    /// A new loop has the lower bounds, the upper bounds and the steps that it was given, each in
    /// the order in which it was given them, and no results. Its body takes an index for each of
    /// the dimensions.
    pub proof fn made_of(
        ir: Ir,
        lower_bounds: Seq<Value>,
        upper_bounds: Seq<Value>,
        steps: Seq<Value>,
    )
        requires
            ir.next_op < usize::MAX,
            ir.next_block < usize::MAX,
            ir.next_region < usize::MAX,
            lower_bounds.len() <= u32::MAX,
            upper_bounds.len() <= u32::MAX,
            steps.len() <= u32::MAX,
        ensures
            ({
                let done = NDForOp::begun(ir, lower_bounds, upper_bounds, steps);
                let op = ir.op_at(0);
                let entry = ir.block_at(0);
                let view = done.ops[op];
                let args = done.blocks[entry].args;
                let this = NDForOp { op };
                let (l, u, s) = (lower_bounds.len(), upper_bounds.len(), steps.len());
                &&& done.made_body(ir, op, ir.region_at(0), entry)
                &&& view.kind is CfNDFor
                &&& view.results.len() == 0
                &&& view.operands.len() == l + u + s
                &&& forall|i: int|
                    0 <= i < l ==> view.operands[i] == #[trigger] lower_bounds[i]
                &&& forall|i: int|
                    0 <= i < u ==> view.operands[l + i] == #[trigger] upper_bounds[i]
                &&& forall|i: int|
                    0 <= i < s ==> view.operands[l + u + i] == #[trigger] steps[i]
                &&& view.segments.len() == 3
                &&& view.segments[0] == l
                &&& view.segments[1] == u
                &&& view.segments[2] == s
                &&& args.len() == l
                &&& forall|i: int|
                    0 <= i < l ==> (#[trigger] args[i]).ty is Index && args[i].name is None
                &&& this.lower_bounds(done) == lower_bounds
                &&& this.upper_bounds(done) == upper_bounds
                &&& this.steps(done) == steps
                &&& this.entry(done) == entry
                &&& this.induction_variables(done).len() == l
                &&& forall|i: int|
                    0 <= i < l ==> #[trigger] this.induction_variables(done)[i]
                        == (Value::BlockArgument { block: entry, idx: i as usize })
            }),
    {
        let done = NDForOp::begun(ir, lower_bounds, upper_bounds, steps);
        let op = ir.op_at(0);
        let entry = ir.block_at(0);
        let view = done.ops[op];
        assert(done.ops =~= ir.ops.insert(op, view));
        assert(done.blocks =~= ir.blocks.insert(entry, done.blocks[entry]));
        view.three_starts();
        assert(view.segment(0) =~= lower_bounds);
        assert(view.segment(1) =~= upper_bounds);
        assert(view.segment(2) =~= steps);
    }
}

impl ExecuteRegionOp {
    /// A new operation has results of the types that it was given, in that order, and takes
    /// nothing. Neither does its region.
    pub proof fn made_of(ir: Ir, result_types: Seq<Type>)
        requires
            ir.next_op < usize::MAX,
            ir.next_block < usize::MAX,
            ir.next_region < usize::MAX,
        ensures
            ({
                let done = ExecuteRegionOp::begun(ir, result_types);
                let op = ir.op_at(0);
                let entry = ir.block_at(0);
                let view = done.ops[op];
                &&& done.made_body(ir, op, ir.region_at(0), entry)
                &&& view.kind is CfExecuteRegion
                &&& view.operands.len() == 0
                &&& view.results.len() == result_types.len()
                &&& forall|i: int|
                    0 <= i < result_types.len() ==> (#[trigger] view.results[i]).ty
                        == result_types[i] && view.results[i].name is None
                &&& done.blocks[entry].args.len() == 0
                &&& (ExecuteRegionOp { op }).entry(done) == entry
            }),
    {
        let done = ExecuteRegionOp::begun(ir, result_types);
        assert(done.ops =~= ir.ops.insert(ir.op_at(0), done.ops[ir.op_at(0)]));
        assert(done.blocks =~= ir.blocks.insert(ir.block_at(0), done.blocks[ir.block_at(0)]));
    }
}

impl IfOp {
    /// A new operation has the condition that it was given, and results of the types that it was
    /// given, in that order. It has a region for the condition to hold, and, if asked for, one for
    /// it not to hold; each of them is one empty block that takes nothing.
    pub proof fn made_of(ir: Ir, condition: Value, result_types: Seq<Type>, with_else: bool)
        requires
            ir.wf(),
            ir.next_op < usize::MAX,
            ir.next_block + 1 < usize::MAX,
            ir.next_region + 1 < usize::MAX,
        ensures
            ({
                let done = IfOp::begun(ir, condition, result_types, with_else);
                let op = ir.op_at(0);
                let view = done.ops[op];
                let this = IfOp { op };
                let n = if with_else { 2nat } else { 1nat };
                &&& op == ir.next_op
                &&& done.ops == ir.ops.insert(op, view)
                &&& done.next_op == ir.next_op + 1
                &&& done.next_block == ir.next_block + n
                &&& done.next_region == ir.next_region + n
                &&& view.kind is CfIf
                &&& view.operands == seq![condition]
                &&& view.successors.len() == 0
                &&& view.parent is None
                &&& view.results.len() == result_types.len()
                &&& forall|i: int|
                    0 <= i < result_types.len() ==> (#[trigger] view.results[i]).ty
                        == result_types[i] && view.results[i].name is None
                &&& view.regions.len() == n
                &&& this.condition(done) == condition
                &&& this.has_else(done) == with_else
                &&& forall|i: int|
                    0 <= i < n ==> {
                        let b = (ir.next_block + i) as BlockId;
                        let r = (ir.next_region + i) as RegionId;
                        &&& #[trigger] view.regions[i] == r
                        &&& done.regions[r].blocks == seq![b]
                        &&& done.regions[r].parent == op
                        &&& done.blocks[b].args.len() == 0
                        &&& done.blocks[b].ops.len() == 0
                        &&& done.blocks[b].label == Some("entry"@)
                        &&& done.blocks[b].parent == r
                        &&& this.entry(done, i) == b
                    }
                &&& forall|b: BlockId|
                    #[trigger] done.blocks.contains_key(b) <==> ir.blocks.contains_key(b)
                        || ir.next_block <= b < ir.next_block + n
                &&& forall|r: RegionId|
                    #[trigger] done.regions.contains_key(r) <==> ir.regions.contains_key(r)
                        || ir.next_region <= r < ir.next_region + n
                &&& forall|b: BlockId|
                    #[trigger] ir.blocks.contains_key(b) ==> done.blocks[b] == ir.blocks[b]
                &&& forall|r: RegionId|
                    #[trigger] ir.regions.contains_key(r) ==> done.regions[r] == ir.regions[r]
            }),
    {
        let done = IfOp::begun(ir, condition, result_types, with_else);
        reveal(Ir::wf);
        assert(done.ops =~= ir.ops.insert(ir.op_at(0), done.ops[ir.op_at(0)]));
    }
}

impl ForOp {
    /// The bounds and the step are the first three operands, and the initial values are those of the
    /// second segment. The induction variable is the first argument of the first block of the body,
    /// and the loop-carried variables are its other arguments, in their order.
    pub proof fn parts_are(self, ir: Ir)
        requires
            self.has_bounds(ir, 3),
            ir.ops[self.op].has_segment(1),
            ir.blocks[ir.regions[ir.ops[self.op].regions[0]].blocks[0]].args.len() <= usize::MAX,
        ensures
            ({
                let view = ir.ops[self.op];
                let s = view.segments[0] as int;
                let entry = ir.regions[view.regions[0]].blocks[0];
                let vars = self.loop_carried_variables(ir);
                &&& self.lower_bound(ir) == view.operands[0]
                &&& self.upper_bound(ir) == view.operands[1]
                &&& self.step(ir) == view.operands[2]
                &&& self.iter_args_init(ir) == view.operands.subrange(s, s + view.segments[1])
                &&& view.segment_size(1) == view.segments[1]
                &&& ir.has_body(self.op, 0) ==> {
                    &&& self.induction_variable(ir) == (Value::BlockArgument {
                        block: entry,
                        idx: 0,
                    })
                    &&& ir.blocks[entry].args.len() > 0 ==> vars.len() == ir.blocks[
                    entry].args.len() - 1
                    &&& forall|i: int|
                        0 <= i < vars.len() ==> #[trigger] vars[i] == (Value::BlockArgument {
                            block: entry,
                            idx: (i + 1) as usize,
                        })
                }
            }),
    {
        let view = ir.ops[self.op];
        view.segment_in_range(0);
        view.segment_in_range(1);
        assert(view.segments.take(0).len() == 0);
        assert(view.segment_start(0) == 0);
    }

    /// A body builder is given the new loop, an insertion point at the start of its body, and the
    /// arguments of the body behind the first one.
    pub proof fn builder_is_given(
        ir: Ir,
        lower_bound: Value,
        upper_bound: Value,
        step: Value,
        inits: Seq<Value>,
        inner: Ir,
        point: OpInsertionPoint,
        args: Seq<Value>,
    )
        requires
            ForOp::handed_over(ir, lower_bound, upper_bound, step, inits, inner, point, args),
            ir.next_op < usize::MAX,
            ir.next_block < usize::MAX,
            ir.next_region < usize::MAX,
            inits.len() <= u32::MAX,
        ensures
            inner.made_body(ir, ir.op_at(0), ir.region_at(0), ir.block_at(0)),
            inner.op_point_block(point) == ir.next_block,
            inner.op_point_index(point) == 0,
            args.len() == inits.len(),
            forall|i: int|
                0 <= i < args.len() ==> #[trigger] args[i] == (Value::BlockArgument {
                    block: ir.next_block as BlockId,
                    idx: (i + 1) as usize,
                }),
            forall|i: int| 0 <= i < args.len() ==> inner.def(#[trigger] args[i]).ty == ir.def(inits[i]).ty,
    {
        ForOp::made_of(ir, lower_bound, upper_bound, step, inits);
        assert forall|i: int| 0 <= i < args.len() implies inner.def(#[trigger] args[i]).ty == ir.def(
            inits[i],
        ).ty by {
            assert(inits[i] == inits[i]);
        }
    }
}

impl NDForOp {
    /// The lower bounds, the upper bounds and the steps are the operands, in this order. The
    /// induction variables are the arguments of the first block of the body, in their order.
    pub proof fn parts_are(self, ir: Ir)
        requires
            ir.ops[self.op].segments.len() == 3,
            ir.ops[self.op].has_segment(2),
            ir.blocks[ir.regions[ir.ops[self.op].regions[0]].blocks[0]].args.len() <= usize::MAX,
        ensures
            ({
                let view = ir.ops[self.op];
                let l = view.segments[0] as int;
                let u = view.segments[1] as int;
                let s = view.segments[2] as int;
                let entry = ir.regions[view.regions[0]].blocks[0];
                let vars = self.induction_variables(ir);
                &&& self.lower_bounds(ir) == view.operands.subrange(0, l)
                &&& self.upper_bounds(ir) == view.operands.subrange(l, l + u)
                &&& self.steps(ir) == view.operands.subrange(l + u, l + u + s)
                &&& ir.has_body(self.op, 0) ==> {
                    &&& vars.len() == ir.blocks[entry].args.len()
                    &&& forall|i: int|
                        0 <= i < vars.len() ==> #[trigger] vars[i] == (Value::BlockArgument {
                            block: entry,
                            idx: i as usize,
                        })
                }
            }),
    {
        ir.ops[self.op].three_starts();
    }

    /// A body builder is given the new loop, an insertion point at the start of its body, and the
    /// arguments of the body, which are indices.
    pub proof fn builder_is_given(
        ir: Ir,
        lower_bounds: Seq<Value>,
        upper_bounds: Seq<Value>,
        steps: Seq<Value>,
        inner: Ir,
        point: OpInsertionPoint,
        indices: Seq<Value>,
    )
        requires
            NDForOp::handed_over(ir, lower_bounds, upper_bounds, steps, inner, point, indices),
            ir.next_op < usize::MAX,
            ir.next_block < usize::MAX,
            ir.next_region < usize::MAX,
            lower_bounds.len() <= u32::MAX,
            upper_bounds.len() <= u32::MAX,
            steps.len() <= u32::MAX,
        ensures
            inner.made_body(ir, ir.op_at(0), ir.region_at(0), ir.block_at(0)),
            inner.op_point_block(point) == ir.next_block,
            inner.op_point_index(point) == 0,
            indices.len() == lower_bounds.len(),
            forall|i: int|
                0 <= i < indices.len() ==> #[trigger] indices[i] == (Value::BlockArgument {
                    block: ir.next_block as BlockId,
                    idx: i as usize,
                }) && inner.def(indices[i]).ty is Index,
    {
        NDForOp::made_of(ir, lower_bounds, upper_bounds, steps);
    }
}

impl ExecuteRegionOp {
    /// A body builder is given the new operation, and an insertion point at the start of its region.
    pub proof fn builder_is_given(
        ir: Ir,
        result_types: Seq<Type>,
        inner: Ir,
        point: OpInsertionPoint,
    )
        requires
            ExecuteRegionOp::handed_over(ir, result_types, inner, point),
            ir.next_op < usize::MAX,
            ir.next_block < usize::MAX,
            ir.next_region < usize::MAX,
        ensures
            inner.made_body(ir, ir.op_at(0), ir.region_at(0), ir.block_at(0)),
            inner.op_point_block(point) == ir.next_block,
            inner.op_point_index(point) == 0,
    {
        ExecuteRegionOp::made_of(ir, result_types);
    }
}

impl IfOp {
    /// The condition is the first operand, and there is an `else` region if there is a second one.
    pub proof fn parts_are(self, ir: Ir)
        ensures
            self.condition(ir) == ir.ops[self.op].operands[0],
            self.has_else(ir) <==> ir.ops[self.op].regions.len() >= 2,
    {
    }
}

impl YieldOp {
    /// The operation that a `yield` in a block yields to is the one in a region of which that block
    /// is.
    pub proof fn yields_to(self, ir: Ir)
        ensures
            ir.ops[self.op].parent is None <==> self.parent(ir) is None,
            ir.ops[self.op].parent is Some ==> self.parent(ir) == Some(
                ir.regions[ir.blocks[ir.ops[self.op].parent->0].parent].parent,
            ),
    {
    }
}

} // verus!
