//! What the checks of operations with regions accept, and what each of them finds in what it
//! refuses.

use crate::cf::op_interfaces::YieldingRegionsVerifyErr;
use crate::cf::ops::{
    ExecuteRegionOp, ExecuteRegionOpVerifyErr, ForOp, ForOpVerifyErr, IfOp, IfOpVerifyErr, NDForOp,
    NDForOpVerifyErr, YieldOp,
};
use crate::cf::verify::VerifyErr;
use crate::ir::model::{Def, Ir};
use crate::ir::segments::Segments;
use crate::ir::types::{OpId, Signedness, Type};
use vstd::prelude::*;

verus! {

impl Ir {
    /// Does every region of the operation have blocks, the last of which ends with a `yield`, and
    /// the others, if with anything that ends a block, with a branch?
    pub open spec fn all_yield(self, op: OpId) -> bool {
        forall|i: int|
            0 <= i < self.ops[op].regions.len() ==> {
                let region = #[trigger] self.ops[op].regions[i];
                &&& self.regions[region].blocks.len() > 0
                &&& self.yields_last(region)
                &&& self.others_branch(region)
            }
    }

    /// Does every region of the operation have one block?
    pub open spec fn one_block_each(self, op: OpId) -> bool {
        forall|i: int|
            0 <= i < self.ops[op].regions.len() ==> self.regions[
            #[trigger] self.ops[op].regions[i]].blocks.len() == 1
    }
}

impl VerifyErr {
    /// Is the finding that a region does not yield?
    pub open spec fn finds_region(found: Option<VerifyErr>) -> bool {
        found matches Some(VerifyErr::YieldingRegions(_))
    }

    /// What is found in the regions of an operation: nothing if they all yield, and otherwise what
    /// is wrong with the first of them that does not.
    pub proof fn regions_yield(ir: Ir, op: OpId)
        ensures
            VerifyErr::yielding(ir, op) is None <==> ir.all_yield(op),
            VerifyErr::yielding(ir, op) is Some ==> VerifyErr::finds_region(
                VerifyErr::yielding(ir, op),
            ),
            ir.ops[op].regions.len() > 0 ==> {
                let region = ir.ops[op].regions[0];
                let found = VerifyErr::yielding(ir, op);
                let some = ir.regions[region].blocks.len() > 0;
                &&& !some ==> found == Some(
                    VerifyErr::YieldingRegions(YieldingRegionsVerifyErr::RegionEmpty),
                )
                &&& some && !ir.yields_last(region) ==> found == Some(
                    VerifyErr::YieldingRegions(YieldingRegionsVerifyErr::LastOpNotYield),
                )
                &&& some && ir.yields_last(region) && !ir.others_branch(region) ==> found == Some(
                    VerifyErr::YieldingRegions(YieldingRegionsVerifyErr::NonExitBlockBadTerminator),
                )
            },
    {
        let regions = ir.ops[op].regions;
        VerifyErr::first_fault::<YieldOp>(ir, op, 0);
        assert forall|i: int| 0 <= i < regions.len() implies (YieldingRegionsVerifyErr::fault::<
            YieldOp,
        >(ir, #[trigger] regions[i]) is None <==> ir.regions[regions[i]].blocks.len() > 0
            && ir.yields_last(regions[i]) && ir.others_branch(regions[i])) by {
            VerifyErr::region_fault(ir, regions[i]);
        }
        if regions.len() > 0 {
            VerifyErr::region_fault(ir, regions[0]);
        }
    }

    /// A loop passes its check if and only if: its body is one block, which ends with a `yield`;
    /// its operands are three or more, the first three of which are indices, and then an initial
    /// value for each result; the block takes an index, and then a value for each result; and
    /// result, initial value and argument have the same type.
    pub proof fn for_passes(ir: Ir, op: OpId)
        requires
            ir.wf(),
            ir.ops.contains_key(op),
            ir.ops[op].kind is CfFor,
            ir.ops[op].segments.len() == 2 ==> ir.ops[op].segments[0] >= 3,
            ir.ops[op].regions.len() == 1 && ir.regions[ir.ops[op].regions[0]].blocks.len() > 0
                ==> ir.blocks[ir.regions[ir.ops[op].regions[0]].blocks[0]].args.len() > 0,
        ensures
            ({
                let found = VerifyErr::finding(ir, op);
                let view = ir.ops[op];
                let results = view.results;
                let args = ir.blocks[ir.regions[view.regions[0]].blocks[0]].args;
                let ends = ir.all_blocks_end(op);
                let one = view.regions.len() == 1;
                let total = Segments::total(view.segments) == view.operands.len();
                let two = view.segments.len() == 2;
                let shaped = ends && one && total && two;
                let yields = ir.all_yield(op);
                let single = ir.one_block_each(op);
                let body = shaped && yields && single;
                let s = view.segments[0] as int;
                let counts = view.segments[1] == results.len() && args.len() == results.len() + 1;
                let types = forall|i: int|
                    0 <= i < results.len() ==> (#[trigger] results[i]).ty == ir.def(
                        view.operands[s + i],
                    ).ty && results[i].ty == args[i + 1].ty;
                let indices = args[0].ty is Index && ir.def(view.operands[0]).ty is Index && ir.def(
                    view.operands[1],
                ).ty is Index && ir.def(view.operands[2]).ty is Index;
                &&& VerifyErr::checkable(ir, op)
                &&& found is None <==> body && counts && types && indices
                &&& found == Some(VerifyErr::MissingTerminator) <==> !ends
                &&& found == Some(VerifyErr::NumRegions) <==> ends && !one
                &&& found == Some(VerifyErr::SegmentTotal) <==> ends && one && !total
                &&& found == Some(VerifyErr::SegmentCount) <==> ends && one && total && !two
                &&& VerifyErr::finds_region(found) <==> shaped && !yields
                &&& found == Some(VerifyErr::SingleBlockRegion) <==> shaped && yields && !single
                &&& found == Some(VerifyErr::For(ForOpVerifyErr::IterArgsCountMismatch)) <==> body
                    && !counts
                &&& found == Some(VerifyErr::For(ForOpVerifyErr::IterArgsTypeMismatch)) <==> body
                    && counts && !types
                &&& found == Some(VerifyErr::For(ForOpVerifyErr::InductionVarTypeMismatch)) <==> body
                    && counts && types && !indices
            }),
    {
        let view = ir.ops[op];
        let this = ForOp { op };
        VerifyErr::blocks_end(ir, op);
        VerifyErr::regions_yield(ir, op);
        assert(VerifyErr::single_blocks(ir, op) == ir.one_block_each(op));
        let body = ir.all_blocks_end(op) && view.regions.len() == 1 && Segments::total(
            view.segments,
        ) == view.operands.len() && view.segments.len() == 2 && ir.all_yield(op)
            && ir.one_block_each(op);
        if body {
            assert(ir.regions[ir.ops[op].regions[0]].blocks.len() == 1);
            view.two_starts();
            this.itself_passes(ir);
        }
    }

    /// If there are not as many results of a loop as initial values, or not as many as values that
    /// its body takes behind the induction variable, then that is what is found, whether or not it
    /// has its bounds and an induction variable.
    pub proof fn for_counts_first(ir: Ir, op: OpId)
        requires
            ir.wf(),
            ir.ops.contains_key(op),
            ir.ops[op].kind is CfFor,
            ir.all_blocks_end(op),
            ir.ops[op].regions.len() == 1,
            ir.ops[op].segments.len() == 2,
            Segments::total(ir.ops[op].segments) == ir.ops[op].operands.len(),
            ir.all_yield(op),
            ir.one_block_each(op),
            ({
                let args = ir.blocks[ir.regions[ir.ops[op].regions[0]].blocks[0]].args;
                let taken = if args.len() == 0 { 0 } else { args.len() - 1 };
                ir.ops[op].segments[1] != ir.ops[op].results.len() || taken
                    != ir.ops[op].results.len()
            }),
        ensures
            VerifyErr::checkable(ir, op),
            VerifyErr::finding(ir, op) == Some(
                VerifyErr::For(ForOpVerifyErr::IterArgsCountMismatch),
            ),
    {
        let view = ir.ops[op];
        let this = ForOp { op };
        VerifyErr::blocks_end(ir, op);
        VerifyErr::regions_yield(ir, op);
        assert(VerifyErr::single_blocks(ir, op) == ir.one_block_each(op));
        assert(ir.regions[ir.ops[op].regions[0]].blocks.len() == 1);
        assert(this.entry(ir) == ir.regions[view.regions[0]].blocks[0]);
        view.two_starts();
        assert(this.iter_args_init(ir).len() == view.segments[1]);
        assert(!this.counts_match(ir));
    }

    /// A loop over several dimensions passes its check if and only if: its body is one block,
    /// which ends with a `yield`; it has no results; its operands are as many lower bounds, upper
    /// bounds and steps, at least one of each, and are all indices; and the block takes an index
    /// for each of the dimensions, and nothing else.
    pub proof fn nd_for_passes(ir: Ir, op: OpId)
        requires
            ir.wf(),
            ir.ops.contains_key(op),
            ir.ops[op].kind is CfNDFor,
        ensures
            ({
                let found = VerifyErr::finding(ir, op);
                let view = ir.ops[op];
                let args = ir.blocks[ir.regions[view.regions[0]].blocks[0]].args;
                let ends = ir.all_blocks_end(op);
                let one = view.regions.len() == 1;
                let bare = view.results.len() == 0;
                let total = Segments::total(view.segments) == view.operands.len();
                let shaped = ends && one && bare && total;
                let yields = ir.all_yield(op);
                let single = ir.one_block_each(op);
                let body = shaped && yields && single;
                let three = view.segments.len() == 3;
                let n = view.segments[0];
                let counts = n > 0 && view.segments[1] == n && view.segments[2] == n && args.len()
                    == n;
                let indices = (forall|i: int| 0 <= i < n ==> (#[trigger] args[i]).ty is Index) && (
                forall|i: int|
                    0 <= i < view.operands.len() ==> ir.def(#[trigger] view.operands[i]).ty is Index);
                &&& VerifyErr::checkable(ir, op)
                &&& found is None <==> body && three && counts && indices
                &&& found == Some(VerifyErr::MissingTerminator) <==> !ends
                &&& found == Some(VerifyErr::NumRegions) <==> ends && !one
                &&& found == Some(VerifyErr::NumResults) <==> ends && one && !bare
                &&& found == Some(VerifyErr::SegmentTotal) <==> ends && one && bare && !total
                &&& VerifyErr::finds_region(found) <==> shaped && !yields
                &&& found == Some(VerifyErr::SingleBlockRegion) <==> shaped && yields && !single
                &&& found == Some(VerifyErr::NDFor(NDForOpVerifyErr::SegmentCountMismatch)) <==> body
                    && !three
                &&& found == Some(VerifyErr::NDFor(NDForOpVerifyErr::IterArgsCountMismatch)) <==> body
                    && three && !counts
                &&& found == Some(
                    VerifyErr::NDFor(NDForOpVerifyErr::InductionVarTypeMismatch),
                ) <==> body && three && counts && !indices
            }),
    {
        let view = ir.ops[op];
        let this = NDForOp { op };
        VerifyErr::blocks_end(ir, op);
        VerifyErr::regions_yield(ir, op);
        assert(VerifyErr::single_blocks(ir, op) == ir.one_block_each(op));
        let body = ir.all_blocks_end(op) && view.regions.len() == 1 && view.results.len() == 0
            && Segments::total(view.segments) == view.operands.len() && ir.all_yield(op)
            && ir.one_block_each(op);
        if body {
            assert(ir.regions[ir.ops[op].regions[0]].blocks.len() == 1);
            this.itself_passes(ir);
            if view.segments.len() == 3 {
                view.three_starts();
            }
        }
    }

    /// An operation that runs a region passes its check if and only if it has one region, whose
    /// blocks all end as they must, the last one with a `yield` and the others with branches, and
    /// whose first block takes nothing.
    pub proof fn execute_region_passes(ir: Ir, op: OpId)
        requires
            ir.wf(),
            ir.ops.contains_key(op),
            ir.ops[op].kind is CfExecuteRegion,
        ensures
            ({
                let found = VerifyErr::finding(ir, op);
                let view = ir.ops[op];
                let ends = ir.all_blocks_end(op);
                let one = view.regions.len() == 1;
                let yields = ir.all_yield(op);
                let nothing = ir.blocks[ir.regions[view.regions[0]].blocks[0]].args.len() == 0;
                &&& VerifyErr::checkable(ir, op)
                &&& found is None <==> ends && one && yields && nothing
                &&& found == Some(VerifyErr::MissingTerminator) <==> !ends
                &&& found == Some(VerifyErr::NumRegions) <==> ends && !one
                &&& VerifyErr::finds_region(found) <==> ends && one && !yields
                &&& found == Some(
                    VerifyErr::ExecuteRegion(ExecuteRegionOpVerifyErr::RegionHasArguments),
                ) <==> ends && one && yields && !nothing
            }),
    {
        VerifyErr::blocks_end(ir, op);
        VerifyErr::regions_yield(ir, op);
        let view = ir.ops[op];
        if view.regions.len() == 1 && ir.all_yield(op) {
            assert(ir.regions[ir.ops[op].regions[0]].blocks.len() > 0);
            (ExecuteRegionOp { op }).itself_passes(ir);
        }
    }

    /// A choice passes its check if and only if: it has one region or two, each of which is one
    /// block that takes nothing and ends with a `yield`; its condition is a signless 1-bit integer;
    /// and it has two regions if it has results.
    pub proof fn if_passes(ir: Ir, op: OpId)
        requires
            ir.wf(),
            ir.ops.contains_key(op),
            ir.ops[op].kind is CfIf,
            ir.ops[op].operands.len() > 0,
        ensures
            ({
                let found = VerifyErr::finding(ir, op);
                let view = ir.ops[op];
                let ends = ir.all_blocks_end(op);
                let few = view.regions.len() == 1 || view.regions.len() == 2;
                let yields = ir.all_yield(op);
                let single = ir.one_block_each(op);
                let body = ends && few && yields && single;
                let bit = ir.def(view.operands[0]).ty == (Type::Integer {
                    width: 1,
                    signedness: Signedness::Signless,
                });
                let nothing = forall|i: int|
                    0 <= i < view.regions.len() ==> ir.blocks[ir.regions[
                    #[trigger] view.regions[i]].blocks[0]].args.len() == 0;
                let whole = view.results.len() == 0 || view.regions.len() == 2;
                &&& VerifyErr::checkable(ir, op)
                &&& found is None <==> body && bit && nothing && whole
                &&& found == Some(VerifyErr::MissingTerminator) <==> !ends
                &&& found == Some(VerifyErr::NumRegions) <==> ends && !few
                &&& VerifyErr::finds_region(found) <==> ends && few && !yields
                &&& found == Some(VerifyErr::SingleBlockRegion) <==> ends && few && yields && !single
                &&& found == Some(VerifyErr::If(IfOpVerifyErr::IncorrectConditionType)) <==> body
                    && !bit
                &&& found == Some(VerifyErr::If(IfOpVerifyErr::RegionHasArguments)) <==> body && bit
                    && !nothing
                &&& found == Some(VerifyErr::If(IfOpVerifyErr::MissingElseRegion)) <==> body && bit
                    && nothing && !whole
            }),
    {
        let view = ir.ops[op];
        let this = IfOp { op };
        VerifyErr::blocks_end(ir, op);
        VerifyErr::regions_yield(ir, op);
        assert(VerifyErr::single_blocks(ir, op) == ir.one_block_each(op));
        if ir.one_block_each(op) {
            assert forall|i: int| 0 <= i < view.regions.len() implies #[trigger] ir.has_body(op, i) by {
                assert(ir.regions[ir.ops[op].regions[i]].blocks.len() == 1);
            }
            this.itself_passes(ir);
        }
    }
}

impl ForOp {
    /// What is found of a loop itself: first that there are not as many results as initial values and
    /// loop-carried variables, then that these do not have the same types, and then that the
    /// induction variable, a bound or the step is no index.
    pub proof fn itself_passes(self, ir: Ir)
        requires
            ir.has_body(self.op, 0),
            ir.ops[self.op].has_segment(1),
            ir.ops[self.op].segments[0] >= 3,
            ir.blocks[ir.regions[ir.ops[self.op].regions[0]].blocks[0]].args.len() > 0,
        ensures
            ({
                let found = self.verified(ir);
                let view = ir.ops[self.op];
                let results = view.results;
                let args = ir.blocks[ir.regions[view.regions[0]].blocks[0]].args;
                let s = view.segments[0] as int;
                let counts = view.segments[1] == results.len() && args.len() == results.len() + 1;
                let types = forall|i: int|
                    0 <= i < results.len() ==> (#[trigger] results[i]).ty == ir.def(
                        view.operands[s + i],
                    ).ty && results[i].ty == args[i + 1].ty;
                let indices = args[0].ty is Index && ir.def(view.operands[0]).ty is Index && ir.def(
                    view.operands[1],
                ).ty is Index && ir.def(view.operands[2]).ty is Index;
                &&& found is Ok <==> counts && types && indices
                &&& found == Err::<(), ForOpVerifyErr>(ForOpVerifyErr::IterArgsCountMismatch)
                    <==> !counts
                &&& found == Err::<(), ForOpVerifyErr>(ForOpVerifyErr::IterArgsTypeMismatch)
                    <==> counts && !types
                &&& found == Err::<(), ForOpVerifyErr>(ForOpVerifyErr::InductionVarTypeMismatch)
                    <==> counts && types && !indices
            }),
    {
        let view = ir.ops[self.op];
        let results = view.results;
        let entry = ir.regions[view.regions[0]].blocks[0];
        let args = ir.blocks[entry].args;
        assert(self.entry(ir) == entry);
        view.earlier_segment(0, 1);
        view.segment_in_range(0);
        view.segment_in_range(1);
        assert(view.segments.take(0).len() == 0);
        assert(view.segment_start(0) == 0);
        let s = view.segments[0] as int;
        let inits = self.iter_args_init(ir);
        let vars = self.loop_carried_variables(ir);
        assert(inits.len() == view.segments[1]);
        assert(vars.len() == args.len() - 1);
        assert(self.lower_bound(ir) == view.operands[0]);
        assert(self.upper_bound(ir) == view.operands[1]);
        assert(self.step(ir) == view.operands[2]);
        let counts = view.segments[1] == results.len() && args.len() == results.len() + 1;
        assert(self.counts_match(ir) == counts);
        if counts {
            let given = results.map_values(|d: Def| d.ty);
            assert forall|i: int| 0 <= i < results.len() implies given[i] == (#[trigger] results[i]).ty
                && ir.types_of(inits)[i] == ir.def(view.operands[s + i]).ty && ir.types_of(vars)[i]
                == args[i + 1].ty by {
                assert(inits[i] == view.operands[s + i]);
            }
            if self.types_match(ir) {
                assert forall|i: int| 0 <= i < results.len() implies (#[trigger] results[i]).ty
                    == ir.def(view.operands[s + i]).ty && results[i].ty == args[i + 1].ty by {
                    assert(given[i] == ir.types_of(inits)[i]);
                    assert(given[i] == ir.types_of(vars)[i]);
                }
            } else if forall|i: int|
                0 <= i < results.len() ==> (#[trigger] results[i]).ty == ir.def(
                    view.operands[s + i],
                ).ty && results[i].ty == args[i + 1].ty {
                assert forall|i: int| 0 <= i < results.len() implies given[i] == ir.types_of(
                    inits,
                )[i] && given[i] == ir.types_of(vars)[i] by {
                    assert(given[i] == results[i].ty);
                }
                assert(given =~= ir.types_of(inits));
                assert(given =~= ir.types_of(vars));
            }
        }
    }
}

impl NDForOp {
    /// What is found of a loop over several dimensions itself: first that it does not have three
    /// segments, then that they are empty or do not have the same sizes or that the body does not
    /// take as many values, and then that one of these values or of the operands is no index.
    pub proof fn itself_passes(self, ir: Ir)
        requires
            ir.has_body(self.op, 0),
            ir.ops[self.op].segments.len() == 3 ==> Segments::total(ir.ops[self.op].segments)
                <= ir.ops[self.op].operands.len(),
        ensures
            ({
                let found = self.verified(ir);
                let view = ir.ops[self.op];
                let args = ir.blocks[ir.regions[view.regions[0]].blocks[0]].args;
                let three = view.segments.len() == 3;
                let n = view.segments[0];
                let counts = n > 0 && view.segments[1] == n && view.segments[2] == n && args.len()
                    == n;
                let indices = (forall|i: int| 0 <= i < n ==> (#[trigger] args[i]).ty is Index) && (
                forall|i: int|
                    0 <= i < n + n + n ==> ir.def(#[trigger] view.operands[i]).ty is Index);
                &&& found is Ok <==> three && counts && indices
                &&& found == Err::<(), NDForOpVerifyErr>(NDForOpVerifyErr::SegmentCountMismatch)
                    <==> !three
                &&& found == Err::<(), NDForOpVerifyErr>(NDForOpVerifyErr::IterArgsCountMismatch)
                    <==> three && !counts
                &&& found == Err::<(), NDForOpVerifyErr>(NDForOpVerifyErr::InductionVarTypeMismatch)
                    <==> three && counts && !indices
            }),
    {
        let view = ir.ops[self.op];
        if view.segments.len() == 3 {
            let entry = ir.regions[view.regions[0]].blocks[0];
            let args = ir.blocks[entry].args;
            let n = view.segments[0] as int;
            assert(self.entry(ir) == entry);
            view.three_starts();
            let counts = n > 0 && view.segments[1] == n && view.segments[2] == n && args.len() == n;
            assert(counts == (self.counts_match(ir) && self.variables_match(ir)));
            if counts {
                self.all_indices(ir);
            }
        }
    }

    /// The induction variables, the bounds and the steps are indices if and only if the arguments of
    /// the body and the operands are.
    proof fn all_indices(self, ir: Ir)
        requires
            ir.has_body(self.op, 0),
            ir.ops[self.op].segments.len() == 3,
            Segments::total(ir.ops[self.op].segments) <= ir.ops[self.op].operands.len(),
            self.counts_match(ir),
            self.variables_match(ir),
        ensures
            ({
                let view = ir.ops[self.op];
                let args = ir.blocks[ir.regions[view.regions[0]].blocks[0]].args;
                let n = view.segments[0];
                self.indices_match(ir) <==> (forall|i: int|
                    0 <= i < n ==> (#[trigger] args[i]).ty is Index) && (forall|i: int|
                    0 <= i < n + n + n ==> ir.def(#[trigger] view.operands[i]).ty is Index)
            }),
    {
        let view = ir.ops[self.op];
        let entry = ir.regions[view.regions[0]].blocks[0];
        let args = ir.blocks[entry].args;
        let n = view.segments[0] as int;
        assert(self.entry(ir) == entry);
        view.three_starts();
        let lowers = self.lower_bounds(ir);
        let uppers = self.upper_bounds(ir);
        let steps = self.steps(ir);
        let vars = self.induction_variables(ir);
        assert forall|i: int| 0 <= i < n implies ir.def(vars[i]) == #[trigger] args[i] by {}
        let all = forall|i: int|
            0 <= i < n + n + n ==> ir.def(#[trigger] view.operands[i]).ty is Index;
        if all {
            assert forall|i: int| 0 <= i < n implies ir.def(#[trigger] lowers[i]).ty is Index by {
                assert(lowers[i] == view.operands[i]);
            }
            assert forall|i: int| 0 <= i < n implies ir.def(#[trigger] uppers[i]).ty is Index by {
                assert(uppers[i] == view.operands[n + i]);
            }
            assert forall|i: int| 0 <= i < n implies ir.def(#[trigger] steps[i]).ty is Index by {
                assert(steps[i] == view.operands[n + n + i]);
            }
            if forall|i: int| 0 <= i < n ==> (#[trigger] args[i]).ty is Index {
                assert forall|i: int| 0 <= i < vars.len() implies ir.def(
                    #[trigger] vars[i],
                ).ty is Index by {
                    assert(ir.def(vars[i]) == args[i]);
                }
            }
        }
        if self.indices_match(ir) {
            assert forall|i: int| 0 <= i < n + n + n implies ir.def(
                #[trigger] view.operands[i],
            ).ty is Index by {
                if i < n {
                    assert(view.operands[i] == lowers[i]);
                } else if i < n + n {
                    assert(view.operands[i] == uppers[i - n]);
                } else {
                    assert(view.operands[i] == steps[i - n - n]);
                }
            }
            assert forall|i: int| 0 <= i < n implies (#[trigger] args[i]).ty is Index by {
                assert(ir.def(vars[i]) == args[i]);
            }
        }
    }
}

impl ExecuteRegionOp {
    /// What is found of an operation that runs a region itself: that the first block of the region
    /// takes something.
    pub proof fn itself_passes(self, ir: Ir)
        requires
            ir.has_body(self.op, 0),
        ensures
            ({
                let args = ir.blocks[ir.regions[ir.ops[self.op].regions[0]].blocks[0]].args;
                &&& self.verified(ir) is Ok <==> args.len() == 0
                &&& self.verified(ir) == Err::<(), ExecuteRegionOpVerifyErr>(
                    ExecuteRegionOpVerifyErr::RegionHasArguments,
                ) <==> args.len() > 0
            }),
    {
        assert(self.entry(ir) == ir.regions[ir.ops[self.op].regions[0]].blocks[0]);
    }
}

impl IfOp {
    /// What is found of a choice itself: first that its condition is no signless 1-bit integer, then
    /// that the first block of a region takes something, and then that there are results and no
    /// second region.
    pub proof fn itself_passes(self, ir: Ir)
        requires
            forall|i: int|
                0 <= i < ir.ops[self.op].regions.len() ==> #[trigger] ir.has_body(self.op, i),
        ensures
            ({
                let found = self.verified(ir);
                let view = ir.ops[self.op];
                let bit = ir.def(view.operands[0]).ty == (Type::Integer {
                    width: 1,
                    signedness: Signedness::Signless,
                });
                let nothing = forall|i: int|
                    0 <= i < view.regions.len() ==> ir.blocks[ir.regions[
                    #[trigger] view.regions[i]].blocks[0]].args.len() == 0;
                let whole = view.results.len() == 0 || view.regions.len() >= 2;
                &&& found is Ok <==> bit && nothing && whole
                &&& found == Err::<(), IfOpVerifyErr>(IfOpVerifyErr::IncorrectConditionType)
                    <==> !bit
                &&& found == Err::<(), IfOpVerifyErr>(IfOpVerifyErr::RegionHasArguments)
                    <==> bit && !nothing
                &&& found == Err::<(), IfOpVerifyErr>(IfOpVerifyErr::MissingElseRegion)
                    <==> bit && nothing && !whole
            }),
    {
        let view = ir.ops[self.op];
        assert forall|i: int| 0 <= i < view.regions.len() implies #[trigger] self.entry(ir, i)
            == ir.regions[view.regions[i]].blocks[0] by {
            assert(ir.has_body(self.op, i));
        }
        if self.regions_take_nothing(ir) {
            assert forall|i: int| 0 <= i < view.regions.len() implies ir.blocks[ir.regions[
            #[trigger] view.regions[i]].blocks[0]].args.len() == 0 by {
                assert(ir.blocks[self.entry(ir, i)].args.len() == 0);
            }
        } else if forall|i: int|
            0 <= i < view.regions.len() ==> ir.blocks[ir.regions[
            #[trigger] view.regions[i]].blocks[0]].args.len() == 0 {
            assert forall|i: int| 0 <= i < view.regions.len() implies ir.blocks[
            #[trigger] self.entry(ir, i)].args.len() == 0 by {
                assert(ir.blocks[ir.regions[view.regions[i]].blocks[0]].args.len() == 0);
            }
        }
    }
}

} // verus!
