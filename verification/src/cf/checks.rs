//! What the checks accept, and what each of them finds in what it refuses.

use crate::cf::op_interfaces::{YieldingOp, YieldingRegionsVerifyErr};
use crate::cf::ops::{BrOp, CondBrOp, CondBrOpVerifyErr, YieldOp, YieldOpVerifyErr};
use crate::cf::verify::VerifyErr;
use crate::ir::model::{Def, Ir};
use crate::ir::segments::Segments;
use crate::ir::types::{BlockId, OpId, OpKind, RegionId, Signedness, Type, Value};
use vstd::prelude::*;

verus! {

impl OpKind {
    /// What ends a block: a `yield`, a branch of either dialect, or an operation of another
    /// dialect that says so of itself. What branches: the same without `yield`, and an operation
    /// of another dialect if that says so.
    pub proof fn which_end_blocks(self)
        ensures
            self.terminates() <==> (self is CfYield || self is CfBr || self is CfCondBr
                || self is LlvmBr || self is LlvmCondBr || (self matches OpKind::Other(other)
                && other.terminator)),
            self.branches() <==> (self is CfBr || self is CfCondBr || self is LlvmBr
                || self is LlvmCondBr || (self matches OpKind::Other(other) && other.branch)),
    {
    }
}

/// What the conditions are that are checked, taken one by one.
impl Ir {
    /// Does the block have operations, and is the last one of a kind that ends blocks?
    pub open spec fn block_ends(self, block: BlockId) -> bool {
        let ops = self.blocks[block].ops;
        ops.len() > 0 && self.ops[ops[ops.len() - 1]].kind.terminates()
    }

    /// Does every block in every region of the operation end as a block must?
    pub open spec fn all_blocks_end(self, op: OpId) -> bool {
        forall|i: int, j: int|
            0 <= i < self.ops[op].regions.len() && 0 <= j < self.regions[
            self.ops[op].regions[i]].blocks.len() ==> self.block_ends(
                #[trigger] self.regions[self.ops[op].regions[i]].blocks[j],
            )
    }

    /// Is the last operation of the last block of the region a `yield`?
    pub open spec fn yields_last(self, region: RegionId) -> bool {
        let blocks = self.regions[region].blocks;
        let ops = self.blocks[blocks[blocks.len() - 1]].ops;
        self.ops[ops[ops.len() - 1]].kind is CfYield
    }

    /// Is what ends a block of the region, other than the last one, always a branch?
    pub open spec fn others_branch(self, region: RegionId) -> bool {
        let blocks = self.regions[region].blocks;
        forall|i: int|
            0 <= i < blocks.len() - 1 && self.block_ends(#[trigger] blocks[i]) ==> {
                let ops = self.blocks[blocks[i]].ops;
                self.ops[ops[ops.len() - 1]].kind.branches()
            }
    }

    /// Are there as many values as the block takes, and is each of the type of the argument at its
    /// position?
    pub open spec fn fits(self, values: Seq<Value>, dest: BlockId) -> bool {
        let args = self.blocks[dest].args;
        &&& values.len() == args.len()
        &&& forall|i: int|
            0 <= i < values.len() ==> self.def(#[trigger] values[i]).ty == args[i].ty
    }
}

impl VerifyErr {
    /// Values can be forwarded to a block if and only if there are as many as the block takes, and
    /// each has exactly the type of the argument at its position, whatever type that is.
    pub proof fn forwarding_fits(ir: Ir, values: Seq<Value>, dest: BlockId)
        ensures
            ({
                let found = VerifyErr::forwarding(ir, values, dest);
                let args = ir.blocks[dest].args;
                &&& found is None <==> ir.fits(values, dest)
                &&& found == Some(VerifyErr::ForwardedCount) <==> values.len() != args.len()
                &&& found == Some(VerifyErr::ForwardedType) <==> values.len() == args.len()
                    && !ir.fits(values, dest)
            }),
    {
        let args = ir.blocks[dest].args;
        if values.len() == args.len() && !ir.fits(values, dest) {
            let i = choose|i: int|
                0 <= i < values.len() && ir.def(#[trigger] values[i]).ty != args[i].ty;
            assert(ir.def(values[i]).ty != ir.blocks[dest].args[i].ty);
        }
    }

    /// A region yields if and only if it has blocks, the last one ends with a `yield`, and what
    /// ends another one is a branch.
    pub proof fn region_fault(ir: Ir, region: RegionId)
        ensures
            ({
                let found = YieldingRegionsVerifyErr::fault::<YieldOp>(ir, region);
                let some = ir.regions[region].blocks.len() > 0;
                &&& found is None <==> some && ir.yields_last(region) && ir.others_branch(region)
                &&& found == Some(YieldingRegionsVerifyErr::RegionEmpty) <==> !some
                &&& found == Some(YieldingRegionsVerifyErr::LastOpNotYield) <==> some
                    && !ir.yields_last(region)
                &&& found == Some(YieldingRegionsVerifyErr::NonExitBlockBadTerminator) <==> some
                    && ir.yields_last(region) && !ir.others_branch(region)
            }),
    {
        let blocks = ir.regions[region].blocks;
        if blocks.len() > 0 {
            assert(blocks.last() == blocks[blocks.len() - 1]);
            if !ir.others_branch(region) {
                let i = choose|i: int|
                    0 <= i < blocks.len() - 1 && ir.block_ends(#[trigger] blocks[i]) && !ir.ops[
                    ir.blocks[blocks[i]].ops[ir.blocks[blocks[i]].ops.len() - 1]].kind.branches();
                assert(YieldingRegionsVerifyErr::strays(ir, region, i));
            } else {
                assert forall|i: int| !YieldingRegionsVerifyErr::strays(ir, region, i) by {
                    if 0 <= i < blocks.len() - 1 {
                        assert(ir.block_ends(blocks[i]) == (ir.terminator(blocks[i]) is Some));
                    }
                }
            }
        }
    }

    /// What is wrong with the regions of an operation is what is wrong with the first of them, in
    /// their order, with which something is wrong.
    pub proof fn first_fault<Y: YieldingOp>(ir: Ir, op: OpId, from: int)
        requires
            0 <= from,
        ensures
            ({
                let found = YieldingRegionsVerifyErr::fault_from::<Y>(ir, op, from);
                let regions = ir.ops[op].regions;
                &&& found is None <==> forall|i: int|
                    from <= i < regions.len() ==> YieldingRegionsVerifyErr::fault::<Y>(
                        ir,
                        #[trigger] regions[i],
                    ) is None
                &&& forall|i: int|
                    from <= i < regions.len() && YieldingRegionsVerifyErr::fault::<Y>(
                        ir,
                        #[trigger] regions[i],
                    ) is Some && (forall|j: int|
                        from <= j < i ==> YieldingRegionsVerifyErr::fault::<Y>(
                            ir,
                            #[trigger] regions[j],
                        ) is None) ==> found == YieldingRegionsVerifyErr::fault::<Y>(
                        ir,
                        regions[i],
                    )
            }),
        decreases ir.ops[op].regions.len() - from,
    {
        let regions = ir.ops[op].regions;
        if from < regions.len() {
            VerifyErr::first_fault::<Y>(ir, op, from + 1);
            let here = YieldingRegionsVerifyErr::fault::<Y>(ir, regions[from]);
            assert forall|i: int|
                from <= i < regions.len() && YieldingRegionsVerifyErr::fault::<Y>(
                    ir,
                    #[trigger] regions[i],
                ) is Some && (forall|j: int|
                    from <= j < i ==> YieldingRegionsVerifyErr::fault::<Y>(
                        ir,
                        #[trigger] regions[j],
                    ) is None) implies YieldingRegionsVerifyErr::fault_from::<Y>(ir, op, from)
                == YieldingRegionsVerifyErr::fault::<Y>(ir, regions[i]) by {
                if i > from {
                    assert(YieldingRegionsVerifyErr::fault::<Y>(ir, regions[from]) is None);
                }
            }
        }
    }

    /// Whether every block ends as it must is what is looked at first in an operation with
    /// regions.
    pub(crate) proof fn blocks_end(ir: Ir, op: OpId)
        ensures
            VerifyErr::terminated(ir, op) <==> ir.all_blocks_end(op),
    {
        if VerifyErr::terminated(ir, op) {
            assert forall|i: int, j: int|
                0 <= i < ir.ops[op].regions.len() && 0 <= j < ir.regions[
                ir.ops[op].regions[i]].blocks.len() implies ir.block_ends(
                #[trigger] ir.regions[ir.ops[op].regions[i]].blocks[j],
            ) by {
                let b = ir.regions[ir.ops[op].regions[i]].blocks[j];
                assert(ir.terminator(b) is Some);
            }
        }
        if ir.all_blocks_end(op) {
            assert forall|i: int, j: int|
                #![trigger ir.regions[ir.ops[op].regions[i]].blocks[j]]
                0 <= i < ir.ops[op].regions.len() && 0 <= j < ir.regions[
                ir.ops[op].regions[i]].blocks.len() implies ir.terminator(
                ir.regions[ir.ops[op].regions[i]].blocks[j],
            ) is Some by {
                let b = ir.regions[ir.ops[op].regions[i]].blocks[j];
                assert(ir.block_ends(b));
            }
        }
    }

    /// Operations of other kinds than those of the dialect are not looked at.
    pub proof fn others_pass(ir: Ir, op: OpId)
        requires
            !(ir.ops[op].kind is CfYield),
            !(ir.ops[op].kind is CfBr),
            !(ir.ops[op].kind is CfCondBr),
            !(ir.ops[op].kind is CfFor),
            !(ir.ops[op].kind is CfNDFor),
            !(ir.ops[op].kind is CfExecuteRegion),
            !(ir.ops[op].kind is CfIf),
        ensures
            VerifyErr::finding(ir, op) is None,
            VerifyErr::checkable(ir, op),
    {
    }

    /// A `yield` passes its check if and only if it has no results, is in a block, and has an
    /// operand of the type of each of the results of the operation in a region of which it is, and
    /// no others.
    pub proof fn yield_passes(ir: Ir, op: OpId)
        requires
            ir.ops[op].kind is CfYield,
        ensures
            ({
                let found = VerifyErr::finding(ir, op);
                let operands = ir.ops[op].operands;
                let placed = ir.ops[op].parent is Some;
                let results = ir.ops[ir.regions[ir.blocks[ir.ops[op].parent->0].parent].parent].results;
                let bare = ir.ops[op].results.len() == 0;
                let same = results.len() == operands.len() && forall|i: int|
                    0 <= i < operands.len() ==> ir.def(#[trigger] operands[i]).ty == results[i].ty;
                &&& VerifyErr::checkable(ir, op)
                &&& found is None <==> bare && placed && same
                &&& found == Some(VerifyErr::NumResults) <==> !bare
                &&& found == Some(VerifyErr::Yield(YieldOpVerifyErr::MissingParentOp)) <==> bare
                    && !placed
                &&& found == Some(VerifyErr::Yield(YieldOpVerifyErr::OperandTypeMismatch)) <==> bare
                    && placed && !same
            }),
    {
        (YieldOp { op }).itself_passes(ir);
    }

    /// A branch passes its check if and only if it has no results and one successor, and forwards
    /// to that values of exactly the types of its arguments.
    pub proof fn br_passes(ir: Ir, op: OpId)
        requires
            ir.ops[op].kind is CfBr,
        ensures
            ({
                let found = VerifyErr::finding(ir, op);
                let view = ir.ops[op];
                let bare = view.results.len() == 0;
                let one = view.successors.len() == 1;
                let as_many = view.operands.len() == ir.blocks[view.successors[0]].args.len();
                let fits = ir.fits(view.operands, view.successors[0]);
                &&& VerifyErr::checkable(ir, op)
                &&& found is None <==> bare && one && fits
                &&& found == Some(VerifyErr::NumResults) <==> !bare
                &&& found == Some(VerifyErr::NumSuccessors) <==> bare && !one
                &&& found == Some(VerifyErr::ForwardedCount) <==> bare && one && !as_many
                &&& found == Some(VerifyErr::ForwardedType) <==> bare && one && as_many && !fits
            }),
    {
        VerifyErr::forwarding_fits(ir, ir.ops[op].operands, ir.ops[op].successors[0]);
    }

    /// A conditional branch passes its check if and only if it has no results, two successors and
    /// three segments that take up its operands, the second and the third of which hold values of
    /// exactly the types of the arguments of the first and of the second successor, and the
    /// condition is a signless 1-bit integer.
    pub proof fn cond_br_passes(ir: Ir, op: OpId, t: Seq<Value>, f: Seq<Value>)
        requires
            ir.ops[op].kind is CfCondBr,
            ir.ops[op].operands.len() > 0,
            ir.ops[op].segments.len() == 3 && ir.ops[op].segments[0] + ir.ops[op].segments[1]
                + ir.ops[op].segments[2] == ir.ops[op].operands.len() ==> {
                let (s, n) = (ir.ops[op].segments[0] as int, ir.ops[op].segments[1] as int);
                &&& t == ir.ops[op].operands.subrange(s, s + n)
                &&& f == ir.ops[op].operands.skip(s + n)
            },
        ensures
            ({
                let found = VerifyErr::finding(ir, op);
                let view = ir.ops[op];
                let bare = view.results.len() == 0;
                let two = view.successors.len() == 2;
                let total = Segments::total(view.segments) == view.operands.len();
                let three = view.segments.len() == 3;
                let shaped = bare && two && total && three;
                let fit_t = ir.fits(t, view.successors[0]);
                let fit_f = ir.fits(f, view.successors[1]);
                let many_t = t.len() == ir.blocks[view.successors[0]].args.len();
                let many_f = f.len() == ir.blocks[view.successors[1]].args.len();
                let bit = ir.def(view.operands[0]).ty == (Type::Integer {
                    width: 1,
                    signedness: Signedness::Signless,
                });
                &&& VerifyErr::checkable(ir, op)
                &&& three && total ==> view.segments[0] + view.segments[1] + view.segments[2]
                    == view.operands.len()
                &&& found is None <==> shaped && fit_t && fit_f && bit
                &&& found == Some(VerifyErr::NumResults) <==> !bare
                &&& found == Some(VerifyErr::NumSuccessors) <==> bare && !two
                &&& found == Some(VerifyErr::SegmentTotal) <==> bare && two && !total
                &&& found == Some(VerifyErr::SegmentCount) <==> bare && two && total && !three
                &&& found == Some(VerifyErr::ForwardedCount) <==> shaped && (!many_t || (fit_t
                    && !many_f))
                &&& found == Some(VerifyErr::ForwardedType) <==> shaped && ((many_t && !fit_t) || (
                fit_t && many_f && !fit_f))
                &&& found == Some(
                    VerifyErr::CondBr(CondBrOpVerifyErr::IncorrectConditionType),
                ) <==> shaped && fit_t && fit_f && !bit
            }),
    {
        let view = ir.ops[op];
        if view.segments.len() == 3 {
            view.three_starts();
            if Segments::total(view.segments) == view.operands.len() {
                assert(view.segment(1) =~= t);
                assert(view.segment(2) =~= f);
            }
        }
        VerifyErr::forwarding_fits(ir, t, view.successors[0]);
        VerifyErr::forwarding_fits(ir, f, view.successors[1]);
    }
}

impl BrOp {
    /// A new `BrOp` passes its check if and only if the values that it was given have exactly the
    /// types of the arguments of the block that it was given.
    pub proof fn made_passes(ir: Ir, dest: BlockId, dest_opds: Seq<Value>)
        requires
            ir.wf(),
            ir.next_op < usize::MAX,
            ir.has_values(dest_opds),
        ensures
            VerifyErr::finding(ir.with_op(BrOp::view(dest, dest_opds)), ir.op_at(0)) is None
                <==> ir.fits(dest_opds, dest),
    {
        let done = ir.with_op(BrOp::view(dest, dest_opds));
        BrOp::made_of(ir, dest, dest_opds);
        VerifyErr::br_passes(done, ir.op_at(0));
        ir.fits_alike(done, dest_opds, dest);
    }
}

impl CondBrOp {
    /// A new `CondBrOp` passes its check if and only if the values that it was given for each
    /// successor have exactly the types of the arguments of that one, and the condition that it was
    /// given is a signless 1-bit integer.
    pub proof fn made_passes(
        ir: Ir,
        condition: Value,
        true_dest: BlockId,
        t: Seq<Value>,
        false_dest: BlockId,
        f: Seq<Value>,
    )
        requires
            ir.wf(),
            ir.next_op < usize::MAX,
            ir.has_value(condition),
            ir.has_values(t),
            ir.has_values(f),
            t.len() <= u32::MAX,
            f.len() <= u32::MAX,
        ensures
            VerifyErr::finding(
                ir.with_op(CondBrOp::view(condition, true_dest, t, false_dest, f)),
                ir.op_at(0),
            ) is None <==> ir.fits(t, true_dest) && ir.fits(f, false_dest) && ir.def(condition).ty
                == (Type::Integer { width: 1, signedness: Signedness::Signless }),
    {
        let done = ir.with_op(CondBrOp::view(condition, true_dest, t, false_dest, f));
        let op = ir.op_at(0);
        CondBrOp::made_of(ir, condition, true_dest, t, false_dest, f);
        let view = done.ops[op];
        view.three_starts();
        let n = t.len() as int;
        assert(view.operands.subrange(1, 1 + n) =~= t);
        assert(view.operands.skip(1 + n) =~= f);
        VerifyErr::cond_br_passes(done, op, t, f);
        ir.fits_alike(done, t, true_dest);
        ir.fits_alike(done, f, false_dest);
        assert(!ir.ops.contains_key(op)) by {
            reveal(Ir::wf);
        }
        assert(done.def(condition) == ir.def(condition));
    }
}

impl Ir {
    /// An operation that is made does not change what fits.
    proof fn fits_alike(self, done: Ir, values: Seq<Value>, dest: BlockId)
        requires
            self.wf(),
            self.next_op < usize::MAX,
            self.has_values(values),
            done.made_op(self, self.op_at(0)),
        ensures
            done.fits(values, dest) == self.fits(values, dest),
    {
        assert(!self.ops.contains_key(self.op_at(0))) by {
            reveal(Ir::wf);
        }
        assert forall|i: int| 0 <= i < values.len() implies done.def(#[trigger] values[i])
            == self.def(values[i]) by {
            assert(self.has_value(values[i]));
        }
    }
}

impl CondBrOp {
    /// What is found of a conditional branch itself: that its condition is no signless 1-bit integer.
    pub proof fn itself_passes(self, ir: Ir)
        ensures
            ({
                let bit = ir.def(ir.ops[self.op].operands[0]).ty == (Type::Integer {
                    width: 1,
                    signedness: Signedness::Signless,
                });
                &&& self.verified(ir) is Ok <==> bit
                &&& self.verified(ir) == Err::<(), CondBrOpVerifyErr>(
                    CondBrOpVerifyErr::IncorrectConditionType,
                ) <==> !bit
            }),
    {
    }
}

impl YieldOp {
    /// What is found of a `yield` itself: first that it is in no block, and then that its operands
    /// are not as many as the results of the operation that it yields to, or not of their types.
    pub proof fn itself_passes(self, ir: Ir)
        ensures
            ({
                let found = self.verified(ir);
                let operands = ir.ops[self.op].operands;
                let placed = ir.ops[self.op].parent is Some;
                let results = ir.ops[ir.regions[ir.blocks[
                ir.ops[self.op].parent->0].parent].parent].results;
                let same = results.len() == operands.len() && forall|i: int|
                    0 <= i < operands.len() ==> ir.def(#[trigger] operands[i]).ty == results[i].ty;
                &&& found is Ok <==> placed && same
                &&& found == Err::<(), YieldOpVerifyErr>(YieldOpVerifyErr::MissingParentOp)
                    <==> !placed
                &&& found == Err::<(), YieldOpVerifyErr>(YieldOpVerifyErr::OperandTypeMismatch)
                    <==> placed && !same
            }),
    {
        let operands = ir.ops[self.op].operands;
        let results = ir.ops[ir.regions[ir.blocks[ir.ops[self.op].parent->0].parent].parent].results;
        let types = results.map_values(|d: Def| d.ty);
        if results.len() == operands.len() && forall|i: int|
            0 <= i < operands.len() ==> ir.def(#[trigger] operands[i]).ty == results[i].ty {
            assert(types =~= ir.types_of(operands));
        }
        if types == ir.types_of(operands) {
            assert(types.len() == ir.types_of(operands).len());
            assert forall|i: int| 0 <= i < operands.len() implies ir.def(#[trigger] operands[i]).ty
                == results[i].ty by {
                assert(types[i] == ir.types_of(operands)[i]);
            }
        }
    }
}

} // verus!
