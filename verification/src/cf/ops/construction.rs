//! What the constructors make passes its check.

use crate::cf::op_interfaces::YieldingRegionsVerifyErr;
use crate::cf::ops::{
    ExecuteRegionOp, ForOp, ForOpVerifyErr, IfOp, NDForOp, NDForOpVerifyErr, YieldOp,
};
use crate::cf::verify::VerifyErr;
use crate::ir::model::{Def, Ir};
use crate::ir::segments::Segments;
use crate::ir::types::{BlockId, OpId, RegionId, Type, Value};
use vstd::prelude::*;

verus! {

impl Ir {
    /// Are an operation, its only region and what the entry block of that takes still as they were
    /// in `begun`? Blocks may have been added behind the entry block.
    pub open spec fn region_filled(self, begun: Ir, op: OpId) -> bool {
        let region = begun.ops[op].regions[0];
        let entry = begun.entry(op, 0);
        &&& self.ops.contains_key(op)
        &&& self.ops[op] == begun.ops[op]
        &&& self.regions.contains_key(region)
        &&& self.regions[region].parent == op
        &&& self.regions[region].blocks.len() > 0
        &&& self.regions[region].blocks.first() == entry
        &&& self.blocks[entry].args == begun.blocks[entry].args
    }

    /// Do all blocks of a region but the last one end with a branch?
    pub open spec fn branches_on(self, region: RegionId) -> bool {
        let blocks = self.regions[region].blocks;
        forall|i: int|
            0 <= i < blocks.len() - 1 ==> self.terminator(#[trigger] blocks[i]) is Some
                && self.ops[self.terminator(blocks[i])->0].kind.branches()
    }

    /// An operation that yields from the last block of its only region is, as far as its region
    /// goes, in order, if and only if all other blocks end with a branch.
    proof fn yields_from_region(self, op: OpId)
        requires
            self.ops[op].regions.len() == 1,
            self.has_exit_op(op, 0),
            self.ops[self.exit_op(op, 0)].kind is CfYield,
        ensures
            VerifyErr::terminated(self, op) && VerifyErr::yielding(self, op) is None
                <==> self.branches_on(self.ops[op].regions[0]),
    {
        let region = self.ops[op].regions[0];
        let blocks = self.regions[region].blocks;
        assert(blocks.last() == self.exit(op, 0));
        assert(YieldingRegionsVerifyErr::fault_from::<YieldOp>(self, op, 1) is None);
        if self.branches_on(region) {
            assert forall|i: int| !YieldingRegionsVerifyErr::strays(self, region, i) by {
                if 0 <= i < blocks.len() - 1 {
                    assert(self.terminator(blocks[i]) is Some);
                }
            }
            assert(YieldingRegionsVerifyErr::fault::<YieldOp>(self, region) is None);
            assert forall|i: int, j: int|
                #![trigger self.regions[self.ops[op].regions[i]].blocks[j]]
                0 <= i < self.ops[op].regions.len() && 0 <= j
                    < self.regions[self.ops[op].regions[i]].blocks.len() implies self.terminator(
                self.regions[self.ops[op].regions[i]].blocks[j],
            ) is Some by {
                if j == blocks.len() - 1 {
                    assert(blocks[j] == self.exit(op, 0));
                } else {
                    assert(self.terminator(blocks[j]) is Some);
                }
            }
        }
        if VerifyErr::terminated(self, op) && VerifyErr::yielding(self, op) is None {
            assert(YieldingRegionsVerifyErr::fault::<YieldOp>(self, region) is None);
            assert forall|i: int| 0 <= i < blocks.len() - 1 implies self.terminator(
                #[trigger] blocks[i],
            ) is Some && self.ops[self.terminator(blocks[i])->0].kind.branches() by {
                assert(self.terminator(self.regions[self.ops[op].regions[0]].blocks[i]) is Some);
                assert(!YieldingRegionsVerifyErr::strays(self, region, i));
            }
        }
    }

    /// An operation that yields from the only block of its only region is, as far as its
    /// region goes, in order.
    proof fn yields_from_body(self, op: OpId)
        requires
            self.ops[op].regions.len() == 1,
            self.regions[self.ops[op].regions[0]].blocks.len() == 1,
            self.blocks[self.entry(op, 0)].ops.len() > 0,
            self.ops[self.exit_op(op, 0)].kind is CfYield,
        ensures
            VerifyErr::terminated(self, op),
            VerifyErr::single_blocks(self, op),
            VerifyErr::yielding(self, op) is None,
    {
        let region = self.ops[op].regions[0];
        assert(self.entry(op, 0) == self.exit(op, 0));
        assert(forall|i: int| !YieldingRegionsVerifyErr::strays(self, region, i));
        assert(YieldingRegionsVerifyErr::fault::<YieldOp>(self, region) is None);
        assert(YieldingRegionsVerifyErr::fault_from::<YieldOp>(self, op, 1) is None);
        assert(YieldingRegionsVerifyErr::fault_from::<YieldOp>(self, op, 0) is None);
    }

    /// Appending a `yield` to the region of an operation leaves the operation, and the types of
    /// all values, as they were, and all blocks but the last one.
    proof fn yielded_keeps(self, op: OpId, yields: Seq<Value>)
        requires
            self.wf(),
            self.next_op < usize::MAX,
            self.has_body(op, 0),
            self.ops[op].regions.len() == 1,
        ensures
            ({
                let region = self.ops[op].regions[0];
                let done = YieldOp::yielded(self, region, yields);
                let y = self.op_at(0);
                let exit = self.exit(op, 0);
                &&& !self.ops.contains_key(y)
                &&& done.ops[op] == self.ops[op]
                &&& done.regions == self.regions
                &&& done.exit_op(op, 0) == y
                &&& done.ops[y].kind is CfYield
                &&& done.ops[y].results.len() == 0
                &&& done.ops[y].operands == yields
                &&& done.ops[y].parent == Some(exit)
                &&& done.blocks[exit].parent == region
                &&& done.blocks[exit].ops.len() > 0
                &&& forall|b: BlockId| #[trigger] done.blocks[b].args == self.blocks[b].args
                &&& done.branches_on(region) == self.branches_on(region)
                &&& forall|v: Value|
                    self.has_value(v) ==> #[trigger] done.def(v) == self.def(v)
            }),
    {
        let region = self.ops[op].regions[0];
        let blocks = self.regions[region].blocks;
        let done = YieldOp::yielded(self, region, yields);
        assert(!self.ops.contains_key(self.op_at(0))) by {
            reveal(Ir::wf);
        }
        self.entry_exit_in_range(op, 0);
        self.block_position_unique(region, blocks.len() - 1);
        assert forall|i: int| 0 <= i < blocks.len() - 1 implies done.terminator(
            #[trigger] blocks[i],
        ) == self.terminator(blocks[i]) && (self.terminator(blocks[i]) is Some
            ==> done.ops[self.terminator(blocks[i])->0] == self.ops[self.terminator(
            blocks[i],
        )->0]) by {
            self.block_position_unique(region, i);
            let b = blocks[i];
            if self.blocks[b].ops.len() > 0 {
                self.position_unique(b, self.blocks[b].ops.len() - 1);
            }
        }
    }

    /// What the check finds of the `yield` of a body: nothing, if the yielded values have the
    /// types of the results of the operation.
    proof fn yield_finding(self, op: OpId, y: OpId)
        requires
            self.ops[y].kind is CfYield,
            self.ops[y].results.len() == 0,
            self.ops[y].parent is Some,
            self.regions[self.blocks[self.ops[y].parent->0].parent].parent == op,
        ensures
            VerifyErr::finding(self, y) is None <==> self.ops[op].results.map_values(|d: Def| d.ty)
                == self.types_of(self.ops[y].operands),
    {
    }
}

impl ForOp {
    /// A loop made by [ForOp::new] passes its check if and only if its bounds and its step are
    /// indices and the builder adds no blocks to the body. What is found otherwise is that the
    /// indices do not match, or, if all blocks but the last one end with a branch, that there is
    /// more than one block. The `yield` passes if and only if the builder returns values of the
    /// types of the initial values.
    pub proof fn made_in_order(
        ir: Ir,
        lower_bound: Value,
        upper_bound: Value,
        step: Value,
        inits: Seq<Value>,
        filled: Ir,
        yields: Seq<Value>,
    )
        requires
            ir.wf(),
            ir.has_value(lower_bound),
            ir.has_value(upper_bound),
            ir.has_value(step),
            ir.has_values(inits),
            inits.len() <= u32::MAX,
            ir.next_op < usize::MAX,
            ir.next_block < usize::MAX,
            ir.next_region < usize::MAX,
            filled.wf(),
            filled.region_filled(
                ForOp::begun(ir, lower_bound, upper_bound, step, inits),
                ir.op_at(0),
            ),
            forall|v: Value| #[trigger] ir.has_value(v) ==> filled.has_value(v) && filled.def(v).ty
                == ir.def(v).ty,
            filled.has_values(yields),
            filled.next_op < usize::MAX,
        ensures
            ({
                let region = ir.region_at(0);
                let done = YieldOp::yielded(filled, region, yields);
                let found = VerifyErr::finding(done, ir.op_at(0));
                let indices = ir.def(lower_bound).ty is Index && ir.def(upper_bound).ty is Index
                    && ir.def(step).ty is Index;
                let single = filled.regions[region].blocks.len() == 1;
                &&& found is None <==> indices && single
                &&& single && !indices ==> found == Some(
                    VerifyErr::For(ForOpVerifyErr::InductionVarTypeMismatch),
                )
                &&& !single && filled.branches_on(region) ==> found == Some(
                    VerifyErr::SingleBlockRegion,
                )
                &&& VerifyErr::finding(done, filled.op_at(0)) is None <==> filled.types_of(yields)
                    == ir.types_of(inits)
            }),
    {
        let this = ForOp { op: ir.op_at(0) };
        let op = this.op;
        let begun = ForOp::begun(ir, lower_bound, upper_bound, step, inits);
        let done = YieldOp::yielded(filled, ir.region_at(0), yields);
        filled.yielded_keeps(op, yields);
        done.yields_from_region(op);
        if done.regions[ir.region_at(0)].blocks.len() == 1 {
            done.yields_from_body(op);
        } else {
            assert(done.ops[op].regions[0] == ir.region_at(0));
            assert(!VerifyErr::single_blocks(done, op));
        }
        let view = begun.ops[op];
        let bounds = seq![lower_bound, upper_bound, step];
        let groups = seq![bounds, inits];
        Segments::flatten_two(bounds, inits);
        assert(Segments::sizes(groups) =~= view.segments);
        Segments::flattened_len(groups);
        view.segment_is_group(groups, 0);
        view.segment_is_group(groups, 1);
        assert(this.iter_args_init(done) == inits);
        assert(this.lower_bound(done) == lower_bound);
        assert(this.upper_bound(done) == upper_bound);
        assert(this.step(done) == step);
        let entry = ir.block_at(0);
        assert(this.entry(done) == entry);
        assert(done.blocks[entry].args == ForOp::body_args(ir, inits));
        let types = done.ops[op].results.map_values(|d: Def| d.ty);
        assert forall|i: int| 0 <= i < inits.len() implies done.def(#[trigger] inits[i]).ty
            == ir.def(inits[i]).ty by {
            assert(ir.has_value(inits[i]));
            assert(filled.has_value(inits[i]));
        }
        assert(types =~= ir.types_of(inits));
        assert(types =~= done.types_of(inits));
        let vars = this.loop_carried_variables(done);
        assert(vars.len() == inits.len());
        assert(types =~= done.types_of(vars));
        assert(ir.has_value(lower_bound) && ir.has_value(upper_bound) && ir.has_value(step));
        assert(done.def(lower_bound).ty == ir.def(lower_bound).ty);
        assert(this.counts_match(done) && this.types_match(done));
        filled.entry_exit_in_range(op, 0);
        let y = filled.op_at(0);
        assert(done.types_of(yields) =~= filled.types_of(yields)) by {
            assert forall|i: int| 0 <= i < yields.len() implies done.def(#[trigger] yields[i])
                == filled.def(yields[i]) by {
                assert(filled.has_value(yields[i]));
            }
        }
        done.yield_finding(op, y);
    }
}

impl NDForOp {
    /// Values that kept their types are all indices if and only if they were.
    proof fn index_alike(ir: Ir, done: Ir, values: Seq<Value>)
        requires
            ir.has_values(values),
            forall|v: Value| #[trigger] ir.has_value(v) ==> done.def(v).ty == ir.def(v).ty,
        ensures
            NDForOp::all_index(done, values) == NDForOp::all_index(ir, values),
    {
        assert forall|i: int| 0 <= i < values.len() implies done.def(#[trigger] values[i]).ty
            == ir.def(values[i]).ty by {
            assert(ir.has_value(values[i]));
        }
    }

    /// A loop over several dimensions made by [NDForOp::new] passes its check if and only if there
    /// is at least one dimension, all bounds and steps are indices and the builder adds no blocks
    /// to the body. What is found otherwise is that the counts do not match, that the indices do
    /// not match, or, if all blocks but the last one end with a branch, that there is more than
    /// one block. The `yield` passes its check.
    pub proof fn made_in_order(
        ir: Ir,
        lower_bounds: Seq<Value>,
        upper_bounds: Seq<Value>,
        steps: Seq<Value>,
        filled: Ir,
    )
        requires
            ir.wf(),
            ir.has_values(lower_bounds),
            ir.has_values(upper_bounds),
            ir.has_values(steps),
            lower_bounds.len() <= u32::MAX,
            lower_bounds.len() == upper_bounds.len() == steps.len(),
            ir.next_op < usize::MAX,
            ir.next_block < usize::MAX,
            ir.next_region < usize::MAX,
            filled.wf(),
            filled.region_filled(
                NDForOp::begun(ir, lower_bounds, upper_bounds, steps),
                ir.op_at(0),
            ),
            forall|v: Value| #[trigger] ir.has_value(v) ==> filled.has_value(v) && filled.def(v).ty
                == ir.def(v).ty,
            filled.next_op < usize::MAX,
        ensures
            ({
                let region = ir.region_at(0);
                let done = YieldOp::yielded(filled, region, Seq::empty());
                let found = VerifyErr::finding(done, ir.op_at(0));
                let some = lower_bounds.len() > 0;
                let indices = NDForOp::all_index(ir, lower_bounds) && NDForOp::all_index(
                    ir,
                    upper_bounds,
                ) && NDForOp::all_index(ir, steps);
                let single = filled.regions[region].blocks.len() == 1;
                &&& found is None <==> some && indices && single
                &&& single && !some ==> found == Some(
                    VerifyErr::NDFor(NDForOpVerifyErr::IterArgsCountMismatch),
                )
                &&& single && some && !indices ==> found == Some(
                    VerifyErr::NDFor(NDForOpVerifyErr::InductionVarTypeMismatch),
                )
                &&& !single && filled.branches_on(region) ==> found == Some(
                    VerifyErr::SingleBlockRegion,
                )
                &&& VerifyErr::finding(done, filled.op_at(0)) is None
            }),
    {
        let this = NDForOp { op: ir.op_at(0) };
        let op = this.op;
        let begun = NDForOp::begun(ir, lower_bounds, upper_bounds, steps);
        let none: Seq<Value> = Seq::empty();
        let done = YieldOp::yielded(filled, ir.region_at(0), none);
        filled.yielded_keeps(op, none);
        done.yields_from_region(op);
        if done.regions[ir.region_at(0)].blocks.len() == 1 {
            done.yields_from_body(op);
        } else {
            assert(done.ops[op].regions[0] == ir.region_at(0));
            assert(!VerifyErr::single_blocks(done, op));
        }
        let view = begun.ops[op];
        let groups = seq![lower_bounds, upper_bounds, steps];
        Segments::flatten_three(lower_bounds, upper_bounds, steps);
        assert(Segments::sizes(groups) =~= view.segments);
        Segments::flattened_len(groups);
        view.segment_is_group(groups, 0);
        view.segment_is_group(groups, 1);
        view.segment_is_group(groups, 2);
        assert(this.lower_bounds(done) == lower_bounds);
        assert(this.upper_bounds(done) == upper_bounds);
        assert(this.steps(done) == steps);
        assert forall|v: Value| #[trigger] ir.has_value(v) implies done.def(v).ty == ir.def(
            v,
        ).ty by {
            assert(filled.has_value(v));
        }
        let entry = ir.block_at(0);
        assert(this.entry(done) == entry);
        assert(done.blocks[entry].args == begun.blocks[entry].args);
        assert(NDForOp::all_index(done, this.induction_variables(done)));
        NDForOp::index_alike(ir, done, lower_bounds);
        NDForOp::index_alike(ir, done, upper_bounds);
        NDForOp::index_alike(ir, done, steps);
        filled.entry_exit_in_range(op, 0);
        done.yield_finding(op, filled.op_at(0));
        assert(done.ops[op].results.map_values(|d: Def| d.ty) =~= done.types_of(none));
    }
}

impl ExecuteRegionOp {
    /// An operation made by [ExecuteRegionOp::new] passes its check if and only if all blocks of
    /// its region but the last one end with a branch: the builder may add blocks behind the entry
    /// block. The `yield` passes if and only if the builder returns values of the types of the
    /// results.
    pub proof fn made_in_order(
        ir: Ir,
        result_types: Seq<Type>,
        filled: Ir,
        yields: Seq<Value>,
    )
        requires
            ir.wf(),
            ir.next_op < usize::MAX,
            ir.next_block < usize::MAX,
            ir.next_region < usize::MAX,
            filled.wf(),
            filled.region_filled(ExecuteRegionOp::begun(ir, result_types), ir.op_at(0)),
            filled.has_values(yields),
            filled.next_op < usize::MAX,
        ensures
            ({
                let done = YieldOp::yielded(filled, ir.region_at(0), yields);
                &&& VerifyErr::finding(done, ir.op_at(0)) is None <==> filled.branches_on(
                    ir.region_at(0),
                )
                &&& VerifyErr::finding(done, filled.op_at(0)) is None <==> filled.types_of(yields)
                    == result_types
            }),
    {
        let op = ir.op_at(0);
        let done = YieldOp::yielded(filled, ir.region_at(0), yields);
        filled.yielded_keeps(op, yields);
        done.yields_from_region(op);
        assert(done.entry(op, 0) == ir.block_at(0));
        assert(done.blocks[ir.block_at(0)].args.len() == 0);
        assert((ExecuteRegionOp { op }).verified(done) is Ok);
        assert(done.ops[op].results.map_values(|d: Def| d.ty) =~= result_types);
        assert(done.types_of(yields) =~= filled.types_of(yields)) by {
            assert forall|i: int| 0 <= i < yields.len() implies done.def(#[trigger] yields[i])
                == filled.def(yields[i]) by {
                assert(filled.has_value(yields[i]));
            }
        }
        filled.entry_exit_in_range(op, 0);
        done.yield_finding(op, filled.op_at(0));
    }
}

impl IfOp {
    /// Is each region one block that takes no arguments and ends with a `yield`?
    pub open spec fn branches_filled(self, ir: Ir) -> bool {
        &&& 1 <= ir.ops[self.op].regions.len() <= 2
        &&& forall|i: int|
            0 <= i < ir.ops[self.op].regions.len() ==> {
                &&& ir.regions[#[trigger] ir.ops[self.op].regions[i]].blocks.len() == 1
                &&& ir.blocks[self.entry(ir, i)].args.len() == 0
                &&& ir.blocks[self.entry(ir, i)].ops.len() > 0
                &&& ir.ops[self.yield_op(ir, i)].kind is CfYield
            }
    }

    /// An operation whose regions have been filled, as [IfOp::new] leaves them to be, passes
    /// its check if and only if its condition is a signless 1-bit integer, and it has an `else`
    /// region or no results.
    pub proof fn made_in_order(self, ir: Ir)
        requires
            ir.ops[self.op].kind is CfIf,
            self.branches_filled(ir),
        ensures
            VerifyErr::finding(ir, self.op) is None <==> ir.def(self.condition(ir)).ty
                == Type::signless(1) && (self.has_else(ir) || ir.ops[self.op].results.len() == 0),
    {
        let op = self.op;
        let regions = ir.ops[op].regions;
        assert forall|i: int| 0 <= i < regions.len() implies YieldingRegionsVerifyErr::fault::<
            YieldOp,
        >(ir, #[trigger] regions[i]) is None by {
            assert(forall|j: int| !YieldingRegionsVerifyErr::strays(ir, regions[i], j));
            assert(self.entry(ir, i) == ir.exit(op, i));
        }
        assert(YieldingRegionsVerifyErr::fault_from::<YieldOp>(ir, op, 2) is None);
        assert(YieldingRegionsVerifyErr::fault_from::<YieldOp>(ir, op, 1) is None) by {
            if regions.len() == 2 {
                assert(YieldingRegionsVerifyErr::fault::<YieldOp>(ir, regions[1]) is None);
            }
        }
        assert(YieldingRegionsVerifyErr::fault::<YieldOp>(ir, regions[0]) is None);
        assert(YieldingRegionsVerifyErr::fault_from::<YieldOp>(ir, op, 0) is None);
        assert(VerifyErr::terminated(ir, op)) by {
            assert forall|i: int, j: int|
                #![trigger ir.regions[ir.ops[op].regions[i]].blocks[j]]
                0 <= i < regions.len() && 0 <= j < ir.regions[regions[i]].blocks.len() implies
                ir.terminator(ir.regions[regions[i]].blocks[j]) is Some by {
                assert(self.entry(ir, i) == ir.exit(op, i));
            }
        }
        assert(self.regions_take_nothing(ir)) by {
            assert forall|i: int| 0 <= i < regions.len() implies ir.blocks[#[trigger] self.entry(
                ir,
                i,
            )].args.len() == 0 by {
                assert(ir.regions[regions[i]].blocks.len() == 1);
            }
        }
    }
}

} // verus!
