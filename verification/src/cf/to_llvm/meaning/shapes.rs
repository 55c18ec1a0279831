//! Every lowering leaves all else in order.

use crate::cf::ops::{BrOp, CondBrOp, ExecuteRegionOp, ForOp, IfOp, NDForOp};
use crate::cf::to_llvm::CFToLLVM;
use crate::ir::model::{Ir, OpView};
use crate::ir::types::{BlockId, OpId, OpKind, RegionId, Value};
use vstd::prelude::*;

verus! {

impl Ir {
    /// The regions of an operation with a single one are that one.
    pub(crate) proof fn only_region(self, op: OpId)
        requires
            self.wf(),
            self.ops.contains_key(op),
            self.ops[op].regions.len() == 1,
        ensures
            forall|r: RegionId| #[trigger]
                self.regions.contains_key(r) && self.regions[r].parent == op ==> r
                    == self.ops[op].regions[0],
            forall|r: RegionId| #[trigger]
                self.ops[op].regions.contains(r) ==> r == self.ops[op].regions[0],
    {
        self.ordered();
        self.region_there(op, 0);
    }
}

impl ForOp {
    /// The new operations are in order.
    proof fn new_ops_reshaped(self, ir: Ir, c: OpId)
        requires
            ir.wf(),
            self.lowerable(ir),
            self.lowered(ir).wf(),
            self.lowered(ir).ops.contains_key(c),
            !ir.ops.contains_key(c),
        ensures
            ir.new_op_reshaped(self.lowered(ir), self.replacement(ir), c),
    {
        let after = self.lowered(ir);
        let way = self.replacement(ir);
        let op = ir.ops[self.op];
        let view = after.ops[c];
        let y = self.yield_op(ir);
        ir.ordered();
        assert(after.next_op <= usize::MAX && after.next_block <= usize::MAX) by {
            reveal(Ir::wf);
        }
        ir.entry_exit_in_range(self.op, 0);
        op.earlier_segment(0, 1);
        op.segment_in_range(0);
        op.segment_in_range(1);
        assert(ir.ends(y, self.op));
        assert(view.regions.len() == 0);
        let lower = self.lower_bound(ir);
        let inits = self.iter_args_init(ir);
        let start = op.segment_start(1);
        assert(lower == op.operands[op.segment_start(0) + 0]);
        assert(self.upper_bound(ir) == op.operands[op.segment_start(0) + 1]);
        assert(self.step(ir) == op.operands[op.segment_start(0) + 2]);
        assert forall|other: OpId|
            ir.ops.contains_key(other) && other != self.op && #[trigger] ir.lenders_spare(
                self.op,
                other,
            ) implies after.spares(c, other) by {
            assert(ir.spares(y, other));
            assert forall|i: int| 0 <= i < view.operands.len() implies !Ir::is_result(
                #[trigger] view.operands[i],
                other,
            ) by {
                if c == self.enter(ir) {
                    if i > 0 {
                        assert(inits[i - 1] == op.operands[start + i - 1]);
                    }
                } else if c == self.repeat(ir) {
                    if i > 0 {
                        assert(!Ir::is_result(ir.ops[y].operands[i - 1], other));
                    }
                }
            }
        }
        assert forall|b: BlockId| #[trigger]
            view.successors.contains(b) && ir.blocks.contains_key(b) implies ir.regions[
        ir.blocks[b].parent].parent == self.op by {}
    }

    /// The blocks are what is left of those that were there, or new.
    proof fn blocks_reshaped(self, ir: Ir, b: BlockId)
        requires
            ir.wf(),
            self.lowerable(ir),
            self.lowered(ir).wf(),
            ir.ops[self.op].kind is CfFor,
            self.lowered(ir).blocks.contains_key(b),
        ensures
            ir.block_reshaped(self.lowered(ir), self.replacement(ir), b),
    {
        let after = self.lowered(ir);
        let way = self.replacement(ir);
        let pre = self.pre_header(ir);
        ir.ordered();
        assert(after.next_op <= usize::MAX && after.next_block <= usize::MAX) by {
            reveal(Ir::wf);
        }
        ir.entry_exit_in_range(self.op, 0);
        ir.position_in_range(self.op);
        ir.only_region(self.op);
        self.surrounded(ir);
        if b != self.header(ir) && b != self.after(ir) {
            assert(ir.blocks.contains_key(b));
            if ir.blocks[b].ops.len() > 0 {
                ir.position_unique(b, ir.blocks[b].ops.len() - 1);
            }
        } else if b == self.after(ir) {
            let n = after.blocks[b].ops.len() - 1;
            if n >= 0 {
                ir.position_unique(pre, ir.blocks[pre].ops.len() - 1);
                assert(after.blocks[b].ops[n] == ir.blocks[pre].ops.last());
            }
        }
    }

    /// Lowering the loop leaves all else in order.
    pub(crate) proof fn reshaped(self, ir: Ir)
        requires
            ir.wf(),
            self.lowerable(ir),
            self.lowered(ir).wf(),
            ir.ops[self.op].kind is CfFor,
            ir.branches_stay(),
        ensures
            ir.reshaped(self.lowered(ir), self.replacement(ir)),
    {
        let after = self.lowered(ir);
        let way = self.replacement(ir);
        self.surrounded(ir);
        ir.ordered();
        assert(after.next_op <= usize::MAX && after.next_block <= usize::MAX) by {
            reveal(Ir::wf);
        }
        ir.entry_exit_in_range(self.op, 0);
        ir.position_in_range(self.op);
        ir.only_region(self.op);
        assert forall|r: RegionId| #[trigger]
            ir.regions.contains_key(r) && ir.regions[r].parent != self.op
                && ir.regions[r].blocks.len() == 0 implies after.regions[r].blocks.len() == 0 by {
            ir.holder_region(self.op);
        }
        assert(ir.ends(self.yield_op(ir), self.op));
        assert forall|o: OpId| #[trigger] ir.kept(o, self.op) implies ir.same_but_renamed(
            after,
            way,
            o,
        ) by {
            assert(self.all_renamed(ir, ir.ops[o].operands) =~= way.stand_ins(ir.ops[o].operands));
        }
        assert forall|b: BlockId| #[trigger]
            after.blocks.contains_key(b) implies ir.block_reshaped(after, way, b) by {
            self.blocks_reshaped(ir, b);
        }
        assert forall|c: OpId| #[trigger]
            after.ops.contains_key(c) && !ir.ops.contains_key(c) implies ir.new_op_reshaped(
            after,
            way,
            c,
        ) by {
            self.new_ops_reshaped(ir, c);
        }
        assert forall|b: BlockId, k: int, j: int|
            #![trigger after.ops[after.blocks[b].ops[k]].successors[j]]
            after.blocks.contains_key(b) && 0 <= k < after.blocks[b].ops.len()
                && !ir.ops.contains_key(after.blocks[b].ops[k]) && 0 <= j
                < after.ops[after.blocks[b].ops[k]].successors.len() implies after.blocks[
        after.ops[after.blocks[b].ops[k]].successors[j]].parent == after.blocks[b].parent by {
            after.position_unique(b, k);
        }
    }
}

impl ExecuteRegionOp {
    /// The new operations are in order.
    proof fn new_ops_reshaped(self, ir: Ir, c: OpId)
        requires
            ir.wf(),
            self.lowerable(ir),
            self.lowered(ir).wf(),
            self.lowered(ir).ops.contains_key(c),
            !ir.ops.contains_key(c),
        ensures
            ir.new_op_reshaped(self.lowered(ir), self.replacement(ir), c),
    {
        let after = self.lowered(ir);
        let view = after.ops[c];
        let y = self.yield_op(ir);
        ir.ordered();
        assert(after.next_op <= usize::MAX && after.next_block <= usize::MAX) by {
            reveal(Ir::wf);
        }
        ir.entry_exit_in_range(self.op, 0);
        assert(ir.ends(y, self.op));
        assert(view.regions.len() == 0);
        assert forall|other: OpId|
            ir.ops.contains_key(other) && other != self.op && #[trigger] ir.lenders_spare(
                self.op,
                other,
            ) implies after.spares(c, other) by {
            assert(ir.spares(y, other));
            assert forall|i: int| 0 <= i < view.operands.len() implies !Ir::is_result(
                #[trigger] view.operands[i],
                other,
            ) by {
                assert(!Ir::is_result(ir.ops[y].operands[i], other));
            }
        }
        assert forall|b: BlockId| #[trigger]
            view.successors.contains(b) && ir.blocks.contains_key(b) implies ir.regions[
        ir.blocks[b].parent].parent == self.op by {}
    }

    /// The blocks are what is left of those that were there, or new.
    proof fn blocks_reshaped(self, ir: Ir, b: BlockId)
        requires
            ir.wf(),
            self.lowerable(ir),
            self.lowered(ir).wf(),
            ir.ops[self.op].kind is CfExecuteRegion,
            self.lowered(ir).blocks.contains_key(b),
        ensures
            ir.block_reshaped(self.lowered(ir), self.replacement(ir), b),
    {
        let after = self.lowered(ir);
        let pre = ir.holder(self.op);
        ir.ordered();
        assert(after.next_op <= usize::MAX && after.next_block <= usize::MAX) by {
            reveal(Ir::wf);
        }
        ir.entry_exit_in_range(self.op, 0);
        ir.position_in_range(self.op);
        ir.only_region(self.op);
        self.surrounded(ir);
        if b != self.continuation(ir) {
            assert(ir.blocks.contains_key(b));
            if ir.blocks[b].ops.len() > 0 {
                ir.position_unique(b, ir.blocks[b].ops.len() - 1);
            }
        } else {
            let n = after.blocks[b].ops.len() - 1;
            if n >= 0 {
                ir.position_unique(pre, ir.blocks[pre].ops.len() - 1);
                assert(after.blocks[b].ops[n] == ir.blocks[pre].ops.last());
            }
        }
    }

    /// What stands for a value has its type.
    pub(crate) proof fn types_kept(self, ir: Ir)
        requires
            ir.wf(),
            self.lowerable(ir),
            self.lowered(ir).wf(),
        ensures
            ir.types_kept(self.lowered(ir), self.replacement(ir)),
    {
        let after = self.lowered(ir);
        let way = self.replacement(ir);
        ir.ordered();
        assert(after.next_op <= usize::MAX && after.next_block <= usize::MAX) by {
            reveal(Ir::wf);
        }
        ir.entry_exit_in_range(self.op, 0);
        assert forall|v: Value| #[trigger] ir.has_value(v) implies after.def(
            Ir::now(way, v),
        ).ty.converted() == ir.def(v).ty.converted() by {}
        assert forall|b: BlockId| ir.blocks.contains_key(b) implies
            #[trigger] after.argument_types(b) == ir.argument_types(b) by {}
    }

    /// Lowering the operation leaves all else in order.
    pub(crate) proof fn reshaped(self, ir: Ir)
        requires
            ir.wf(),
            self.lowerable(ir),
            self.lowered(ir).wf(),
            ir.ops[self.op].kind is CfExecuteRegion,
            ir.branches_stay(),
        ensures
            ir.reshaped(self.lowered(ir), self.replacement(ir)),
    {
        let after = self.lowered(ir);
        let way = self.replacement(ir);
        self.surrounded(ir);
        ir.ordered();
        assert(after.next_op <= usize::MAX && after.next_block <= usize::MAX) by {
            reveal(Ir::wf);
        }
        ir.entry_exit_in_range(self.op, 0);
        ir.position_in_range(self.op);
        ir.only_region(self.op);
        assert forall|r: RegionId| #[trigger]
            ir.regions.contains_key(r) && ir.regions[r].parent != self.op
                && ir.regions[r].blocks.len() == 0 implies after.regions[r].blocks.len() == 0 by {
            ir.holder_region(self.op);
        }
        assert(ir.ends(self.yield_op(ir), self.op));
        assert forall|o: OpId| #[trigger] ir.kept(o, self.op) implies ir.same_but_renamed(
            after,
            way,
            o,
        ) by {
            assert(self.all_renamed(ir, ir.ops[o].operands) =~= way.stand_ins(ir.ops[o].operands));
        }
        assert forall|b: BlockId| #[trigger]
            after.blocks.contains_key(b) implies ir.block_reshaped(after, way, b) by {
            self.blocks_reshaped(ir, b);
        }
        assert forall|c: OpId| #[trigger]
            after.ops.contains_key(c) && !ir.ops.contains_key(c) implies ir.new_op_reshaped(
            after,
            way,
            c,
        ) by {
            self.new_ops_reshaped(ir, c);
        }
        assert forall|b: BlockId, k: int, j: int|
            #![trigger after.ops[after.blocks[b].ops[k]].successors[j]]
            after.blocks.contains_key(b) && 0 <= k < after.blocks[b].ops.len()
                && !ir.ops.contains_key(after.blocks[b].ops[k]) && 0 <= j
                < after.ops[after.blocks[b].ops[k]].successors.len() implies after.blocks[
        after.ops[after.blocks[b].ops[k]].successors[j]].parent == after.blocks[b].parent by {
            after.position_unique(b, k);
        }
    }
}

impl IfOp {
    /// The regions of the operation are the first, and the second one if there is an `else`.
    proof fn only_regions(self, ir: Ir)
        requires
            ir.wf(),
            self.lowerable(ir),
        ensures
            forall|r: RegionId| #[trigger]
                ir.regions.contains_key(r) && ir.regions[r].parent == self.op ==> r == self.region(
                    ir,
                    0,
                ) || self.has_else(ir) && r == self.region(ir, 1),
            forall|r: RegionId| #[trigger]
                ir.ops[self.op].regions.contains(r) ==> r == self.region(ir, 0) || self.has_else(ir)
                    && r == self.region(ir, 1),
            ir.ops[self.op].regions.contains(self.region(ir, 0)),
            self.has_else(ir) ==> ir.ops[self.op].regions.contains(self.region(ir, 1)),
    {
        ir.ordered();
        ir.region_there(self.op, 0);
        if self.has_else(ir) {
            ir.region_there(self.op, 1);
        }
    }

    /// The new operations are in order.
    proof fn new_ops_reshaped(self, ir: Ir, c: OpId)
        requires
            ir.wf(),
            self.lowerable(ir),
            self.lowered(ir).wf(),
            self.lowered(ir).ops.contains_key(c),
            !ir.ops.contains_key(c),
        ensures
            ir.new_op_reshaped(self.lowered(ir), self.replacement(ir), c),
    {
        let after = self.lowered(ir);
        let view = after.ops[c];
        ir.ordered();
        assert(after.next_op <= usize::MAX && after.next_block <= usize::MAX) by {
            reveal(Ir::wf);
        }
        self.apart(ir);
        self.only_regions(ir);
        ir.entry_exit_in_range(self.op, 0);
        let y = self.yield_op(ir, 0);
        assert(ir.ends(y, self.op));
        let z = self.yield_op(ir, 1);
        if self.has_else(ir) {
            ir.entry_exit_in_range(self.op, 1);
            assert(ir.ends(z, self.op));
        }
        assert(view.regions.len() == 0);
        assert forall|other: OpId|
            ir.ops.contains_key(other) && other != self.op && #[trigger] ir.lenders_spare(
                self.op,
                other,
            ) implies after.spares(c, other) by {
            assert(ir.spares(y, other));
            assert(self.has_else(ir) ==> ir.spares(z, other));
            assert forall|i: int| 0 <= i < view.operands.len() implies !Ir::is_result(
                #[trigger] view.operands[i],
                other,
            ) by {
                if c == self.decide(ir) {
                    assert(view.operands.len() == 1);
                    assert(!Ir::is_result(ir.ops[self.op].operands[0], other));
                } else if c == self.leave_then(ir) {
                    assert(!Ir::is_result(ir.ops[y].operands[i], other));
                } else {
                    assert(!Ir::is_result(ir.ops[z].operands[i], other));
                }
            }
        }
        assert forall|b: BlockId| #[trigger]
            view.successors.contains(b) && ir.blocks.contains_key(b) implies ir.regions[
        ir.blocks[b].parent].parent == self.op by {}
    }

    /// The blocks are what is left of those that were there, or new.
    proof fn blocks_reshaped(self, ir: Ir, b: BlockId)
        requires
            ir.wf(),
            self.lowerable(ir),
            self.lowered(ir).wf(),
            ir.ops[self.op].kind is CfIf,
            self.lowered(ir).blocks.contains_key(b),
        ensures
            ir.block_reshaped(self.lowered(ir), self.replacement(ir), b),
    {
        let after = self.lowered(ir);
        let pre = ir.holder(self.op);
        ir.ordered();
        assert(after.next_op <= usize::MAX && after.next_block <= usize::MAX) by {
            reveal(Ir::wf);
        }
        self.apart(ir);
        self.only_regions(ir);
        ir.entry_exit_in_range(self.op, 0);
        if self.has_else(ir) {
            ir.entry_exit_in_range(self.op, 1);
        }
        ir.position_in_range(self.op);
        self.surrounded(ir);
        if b != self.continuation(ir) {
            assert(ir.blocks.contains_key(b));
            if ir.blocks[b].ops.len() > 0 {
                ir.position_unique(b, ir.blocks[b].ops.len() - 1);
            }
        } else {
            let n = after.blocks[b].ops.len() - 1;
            if n >= 0 {
                ir.position_unique(pre, ir.blocks[pre].ops.len() - 1);
                assert(after.blocks[b].ops[n] == ir.blocks[pre].ops.last());
            }
        }
    }

    /// What stands for a value has its type.
    pub(crate) proof fn types_kept(self, ir: Ir)
        requires
            ir.wf(),
            self.lowerable(ir),
            self.lowered(ir).wf(),
        ensures
            ir.types_kept(self.lowered(ir), self.replacement(ir)),
    {
        let after = self.lowered(ir);
        let way = self.replacement(ir);
        ir.ordered();
        assert(after.next_op <= usize::MAX && after.next_block <= usize::MAX) by {
            reveal(Ir::wf);
        }
        self.apart(ir);
        assert forall|v: Value| #[trigger] ir.has_value(v) implies after.def(
            Ir::now(way, v),
        ).ty.converted() == ir.def(v).ty.converted() by {}
        assert forall|b: BlockId| ir.blocks.contains_key(b) implies
            #[trigger] after.argument_types(b) == ir.argument_types(b) by {}
    }

    /// Lowering the operation leaves all else in order.
    pub(crate) proof fn reshaped(self, ir: Ir)
        requires
            ir.wf(),
            self.lowerable(ir),
            self.lowered(ir).wf(),
            ir.ops[self.op].kind is CfIf,
            ir.branches_stay(),
        ensures
            ir.reshaped(self.lowered(ir), self.replacement(ir)),
    {
        let after = self.lowered(ir);
        let way = self.replacement(ir);
        self.surrounded(ir);
        ir.ordered();
        assert(after.next_op <= usize::MAX && after.next_block <= usize::MAX) by {
            reveal(Ir::wf);
        }
        self.apart(ir);
        self.only_regions(ir);
        ir.entry_exit_in_range(self.op, 0);
        assert(ir.ends(self.yield_op(ir, 0), self.op));
        if self.has_else(ir) {
            ir.entry_exit_in_range(self.op, 1);
            assert(ir.ends(self.yield_op(ir, 1), self.op));
        }
        ir.position_in_range(self.op);
        assert forall|r: RegionId| #[trigger]
            ir.regions.contains_key(r) && ir.regions[r].parent != self.op
                && ir.regions[r].blocks.len() == 0 implies after.regions[r].blocks.len() == 0 by {
            ir.holder_region(self.op);
        }
        assert forall|o: OpId| #[trigger] ir.kept(o, self.op) implies ir.same_but_renamed(
            after,
            way,
            o,
        ) by {
            assert(self.all_renamed(ir, ir.ops[o].operands) =~= way.stand_ins(ir.ops[o].operands));
        }
        assert forall|b: BlockId| #[trigger]
            after.blocks.contains_key(b) implies ir.block_reshaped(after, way, b) by {
            self.blocks_reshaped(ir, b);
        }
        assert forall|c: OpId| #[trigger]
            after.ops.contains_key(c) && !ir.ops.contains_key(c) implies ir.new_op_reshaped(
            after,
            way,
            c,
        ) by {
            self.new_ops_reshaped(ir, c);
        }
        assert forall|b: BlockId, k: int, j: int|
            #![trigger after.ops[after.blocks[b].ops[k]].successors[j]]
            after.blocks.contains_key(b) && 0 <= k < after.blocks[b].ops.len()
                && !ir.ops.contains_key(after.blocks[b].ops[k]) && 0 <= j
                < after.ops[after.blocks[b].ops[k]].successors.len() implies after.blocks[
        after.ops[after.blocks[b].ops[k]].successors[j]].parent == after.blocks[b].parent by {
            after.position_unique(b, k);
        }
    }
}

impl Ir {
    /// Swapping a branch for one that uses no other values, and leads nowhere else, leaves all
    /// else in order.
    proof fn swap_reshaped(self, op: OpId, view: OpView)
        requires
            self.wf(),
            self.swappable(op),
            self.swapped(op, view).wf(),
            self.surrounded(self.swapped(op, view), self.swap(op)),
            self.branches_stay(),
            view.regions.len() == 0,
            !view.kind.closes(),
            forall|i: int|
                0 <= i < view.operands.len() ==> self.ops[op].operands.contains(
                    #[trigger] view.operands[i],
                ),
            forall|i: int|
                0 <= i < view.successors.len() ==> self.ops[op].successors.contains(
                    #[trigger] view.successors[i],
                ),
        ensures
            self.reshaped(self.swapped(op, view), self.swap(op)),
            self.types_kept(self.swapped(op, view), self.swap(op)),
    {
        let after = self.swapped(op, view);
        let way = self.swap(op);
        let holder = self.holder(op);
        let p = self.position(op);
        self.ordered();
        self.position_in_range(op);
        assert(after.next_op <= usize::MAX) by {
            reveal(Ir::wf);
        }
        assert forall|r: RegionId| #[trigger] self.regions.contains_key(r) implies self.regions[
        r].parent != op by {
            assert(self.ops[self.regions[r].parent].regions.contains(r));
        }
        assert forall|o: OpId| #[trigger] self.kept(o, op) implies self.same_but_renamed(
            after,
            way,
            o,
        ) by {
            let operands = self.ops[o].operands;
            self.operands_there(o);
            assert forall|i: int| 0 <= i < operands.len() implies Ir::substituted(
                #[trigger] operands[i],
                way.op,
                way.block,
                way.first,
            ) == operands[i] by {
                assert(self.has_value(operands[i]));
            }
            assert(way.stand_ins(operands) =~= operands);
        }
        assert forall|b: BlockId| #[trigger]
            after.blocks.contains_key(b) implies self.block_reshaped(after, way, b) by {
            if after.blocks[b].ops.len() > 0 {
                let n = self.blocks[b].ops.len() - 1;
                self.position_unique(b, n);
                if b == holder && p != n {
                    assert(after.blocks[b].ops[n] == self.blocks[b].ops[n]);
                }
            }
        }
        assert forall|c: OpId| #[trigger]
            after.ops.contains_key(c) && !self.ops.contains_key(c) implies self.new_op_reshaped(
            after,
            way,
            c,
        ) by {
            assert(c == way.new);
            assert forall|other: OpId|
                self.ops.contains_key(other) && other != op && #[trigger] self.lenders_spare(
                    op,
                    other,
                ) implies after.spares(c, other) by {
                assert forall|i: int| 0 <= i < view.operands.len() implies !Ir::is_result(
                    #[trigger] view.operands[i],
                    other,
                ) by {
                    let j = self.ops[op].operands.index_of(view.operands[i]);
                    assert(!Ir::is_result(self.ops[op].operands[j], other));
                }
            }
            assert forall|b: BlockId| #[trigger]
                after.ops[c].successors.contains(b) && self.blocks.contains_key(
                    b,
                ) implies self.ops[op].successors.contains(b) by {
                let j = view.successors.index_of(b);
                assert(self.ops[op].successors.contains(view.successors[j]));
            }
        }
        assert forall|b: BlockId, k: int, j: int|
            #![trigger after.ops[after.blocks[b].ops[k]].successors[j]]
            after.blocks.contains_key(b) && 0 <= k < after.blocks[b].ops.len()
                && !self.ops.contains_key(after.blocks[b].ops[k]) && 0 <= j
                < after.ops[after.blocks[b].ops[k]].successors.len() implies after.blocks[
        after.ops[after.blocks[b].ops[k]].successors[j]].parent == after.blocks[b].parent by {
            after.position_unique(b, k);
            let to = view.successors[j];
            let m = self.ops[op].successors.index_of(to);
            assert(self.blocks[self.ops[self.blocks[holder].ops[p]].successors[m]].parent
                == self.blocks[holder].parent);
        }
        assert forall|v: Value| #[trigger] self.has_value(v) implies after.def(
            Ir::now(way, v),
        ).ty.converted() == self.def(v).ty.converted() by {}
        assert forall|b: BlockId| self.blocks.contains_key(b) implies
            #[trigger] after.argument_types(b) == self.argument_types(b) by {}
    }
}

impl NDForOp {
    /// The new operations are in order.
    proof fn new_ops_reshaped(self, ir: Ir, c: OpId)
        requires
            ir.wf(),
            self.lowerable(ir),
            self.lowered(ir).wf(),
            self.lowered(ir).ops.contains_key(c),
            !ir.ops.contains_key(c),
        ensures
            ir.new_op_reshaped(self.lowered(ir), self.replacement(ir), c),
    {
        let after = self.lowered(ir);
        let n = self.dims(ir);
        let op = ir.ops[self.op];
        let view = after.ops[c];
        self.bounded(ir);
        assert(after.next_op <= usize::MAX && after.next_block <= usize::MAX && after.next_region
            <= usize::MAX) by {
            reveal(Ir::wf);
        }
        ir.entry_exit_in_range(self.op, 0);
        op.earlier_segment(0, 2);
        op.earlier_segment(1, 2);
        op.segment_in_range(0);
        op.segment_in_range(1);
        op.segment_in_range(2);
        let i = (c - ir.next_op) / 2;
        let even = (c - ir.next_op) % 2 == 0;
        let d = n - 1 - i;
        if c != self.jump(ir) && even {
            assert(c == self.loop_op(ir, i));
            assert(view.regions == seq![self.loop_region(ir, i)]);
            assert(self.lower_bounds(ir)[d] == op.operands[op.segment_start(0) + d]);
            assert(self.upper_bounds(ir)[d] == op.operands[op.segment_start(1) + d]);
            assert(self.steps(ir)[d] == op.operands[op.segment_start(2) + d]);
        }
        assert forall|r: RegionId| view.regions.contains(r) implies !(
        #[trigger] ir.regions.contains_key(r)) by {}
        assert forall|other: OpId|
            ir.ops.contains_key(other) && other != self.op && #[trigger] ir.lenders_spare(
                self.op,
                other,
            ) implies after.spares(c, other) by {
            assert forall|k: int| 0 <= k < view.operands.len() implies !Ir::is_result(
                #[trigger] view.operands[k],
                other,
            ) by {
                if c != self.jump(ir) && even {
                    assert(!Ir::is_result(op.operands[op.segment_start(0) + d], other));
                    assert(!Ir::is_result(op.operands[op.segment_start(1) + d], other));
                    assert(!Ir::is_result(op.operands[op.segment_start(2) + d], other));
                }
            }
        }
        assert forall|b: BlockId| #[trigger]
            view.successors.contains(b) && ir.blocks.contains_key(b) implies ir.regions[
        ir.blocks[b].parent].parent == self.op by {}
    }

    /// The blocks are what is left of those that were there, or new.
    proof fn blocks_reshaped(self, ir: Ir, b: BlockId)
        requires
            ir.wf(),
            self.lowerable(ir),
            self.lowered(ir).wf(),
            ir.ops[self.op].kind is CfNDFor,
            self.lowered(ir).blocks.contains_key(b),
        ensures
            ir.block_reshaped(self.lowered(ir), self.replacement(ir), b),
    {
        let after = self.lowered(ir);
        let way = self.replacement(ir);
        let n = self.dims(ir);
        let holder = ir.holder(self.op);
        let p = ir.position(self.op);
        self.bounded(ir);
        ir.ordered();
        assert(after.next_op <= usize::MAX && after.next_block <= usize::MAX && after.next_region
            <= usize::MAX) by {
            reveal(Ir::wf);
        }
        ir.entry_exit_in_range(self.op, 0);
        ir.position_in_range(self.op);
        ir.only_region(self.op);
        self.surrounded(ir);
        if ir.blocks.contains_key(b) {
            if ir.blocks[b].ops.len() > 0 {
                let m = ir.blocks[b].ops.len() - 1;
                ir.position_unique(b, m);
                if b == holder && p != m {
                    assert(after.blocks[b].ops[m] == ir.blocks[b].ops[m]);
                }
            }
        } else {
            let i = b - ir.next_block;
            assert(b == self.loop_entry(ir, i));
            assert(after.blocks[b].parent == self.loop_region(ir, i));
        }
    }

    /// Lowering the loop leaves all else in order.
    pub(crate) proof fn reshaped(self, ir: Ir)
        requires
            ir.wf(),
            self.lowerable(ir),
            self.lowered(ir).wf(),
            ir.ops[self.op].kind is CfNDFor,
            ir.branches_stay(),
        ensures
            ir.reshaped(self.lowered(ir), self.replacement(ir)),
            ir.types_kept(self.lowered(ir), self.replacement(ir)),
    {
        let after = self.lowered(ir);
        let way = self.replacement(ir);
        let n = self.dims(ir);
        self.surrounded(ir);
        self.bounded(ir);
        ir.ordered();
        assert(after.next_op <= usize::MAX && after.next_block <= usize::MAX && after.next_region
            <= usize::MAX) by {
            reveal(Ir::wf);
        }
        ir.entry_exit_in_range(self.op, 0);
        ir.position_in_range(self.op);
        ir.only_region(self.op);
        assert(ir.ends(self.yield_op(ir), self.op));
        assert forall|o: OpId| #[trigger] ir.kept(o, self.op) implies ir.same_but_renamed(
            after,
            way,
            o,
        ) by {
            let operands = ir.ops[o].operands;
            ir.operands_there(o);
            assert forall|i: int| 0 <= i < operands.len() implies Ir::substituted(
                #[trigger] operands[i],
                way.op,
                way.block,
                way.first,
            ) == operands[i] by {
                assert(ir.has_value(operands[i]));
            }
            assert(way.stand_ins(operands) =~= operands);
        }
        assert forall|b: BlockId| #[trigger]
            after.blocks.contains_key(b) implies ir.block_reshaped(after, way, b) by {
            self.blocks_reshaped(ir, b);
        }
        assert forall|c: OpId| #[trigger]
            after.ops.contains_key(c) && !ir.ops.contains_key(c) implies ir.new_op_reshaped(
            after,
            way,
            c,
        ) by {
            self.new_ops_reshaped(ir, c);
        }
        assert forall|b: BlockId, k: int, j: int|
            #![trigger after.ops[after.blocks[b].ops[k]].successors[j]]
            after.blocks.contains_key(b) && 0 <= k < after.blocks[b].ops.len()
                && !ir.ops.contains_key(after.blocks[b].ops[k]) && 0 <= j
                < after.ops[after.blocks[b].ops[k]].successors.len() implies after.blocks[
        after.ops[after.blocks[b].ops[k]].successors[j]].parent == after.blocks[b].parent by {
            after.position_unique(b, k);
        }
        assert forall|v: Value| #[trigger] ir.has_value(v) implies after.def(
            Ir::now(way, v),
        ).ty.converted() == ir.def(v).ty.converted() by {}
        assert forall|b: BlockId| ir.blocks.contains_key(b) implies
            #[trigger] after.argument_types(b) == ir.argument_types(b) by {}
    }
}

impl BrOp {
    /// Lowering the branch leaves all else in order.
    pub(crate) proof fn reshaped(self, ir: Ir)
        requires
            ir.wf(),
            self.lowerable(ir),
            self.lowered(ir).wf(),
            ir.ops[self.op].kind is CfBr,
            ir.blocks[ir.holder(self.op)].ops.last() == self.op,
            ir.branches_stay(),
        ensures
            ir.reshaped(self.lowered(ir), ir.swap(self.op)),
            ir.types_kept(self.lowered(ir), ir.swap(self.op)),
    {
        let acts = |o: OpId, numbers: Seq<int>, world: int| (numbers, world);
        self.replaced(ir, acts);
        let op = ir.ops[self.op];
        assert(op.successors.contains(op.successors[0]));
        ir.swap_reshaped(self.op, OpView::llvm_br(op.successors[0], op.operands));
    }
}

impl CondBrOp {
    /// Lowering the branch leaves all else in order.
    pub(crate) proof fn reshaped(self, ir: Ir)
        requires
            ir.wf(),
            self.lowerable(ir),
            self.lowered(ir).wf(),
            ir.ops[self.op].kind is CfCondBr,
            ir.blocks[ir.holder(self.op)].ops.last() == self.op,
            ir.branches_stay(),
        ensures
            ir.reshaped(self.lowered(ir), ir.swap(self.op)),
            ir.types_kept(self.lowered(ir), ir.swap(self.op)),
    {
        let acts = |o: OpId, numbers: Seq<int>, world: int| (numbers, world);
        self.replaced(ir, acts);
        let op = ir.ops[self.op];
        op.earlier_segment(1, 2);
        op.segment_in_range(1);
        op.segment_in_range(2);
        let yes = op.segment(1);
        let no = op.segment(2);
        let view = OpView::llvm_cond_br(
            op.operands[0],
            op.successors[0],
            yes,
            op.successors[1],
            no,
        );
        assert(op.successors.contains(op.successors[0]));
        assert(op.successors.contains(op.successors[1]));
        assert forall|i: int| 0 <= i < view.operands.len() implies op.operands.contains(
            #[trigger] view.operands[i],
        ) by {
            assert(view.operands == seq![op.operands[0]] + yes + no);
            if i == 0 {
                assert(op.operands.contains(op.operands[0]));
            } else if i <= yes.len() {
                assert(view.operands[i] == op.operands[op.segment_start(1) + i - 1]);
            } else {
                assert(view.operands[i] == op.operands[op.segment_start(2) + i - 1 - yes.len()]);
            }
        }
        ir.swap_reshaped(self.op, view);
    }
}

impl CFToLLVM {
    /// Is the operation of control flow in order, such that lowering it keeps what the program
    /// means, and what branches forward? It can be lowered, it is where it belongs, the types that
    /// meet in it agree, and its regions end at the end of their last blocks alone.
    pub open spec fn in_order(ir: Ir, op: OpId) -> bool {
        &&& ir.ops.contains_key(op)
        &&& CFToLLVM::lowerable(ir, op)
        &&& CFToLLVM::well_used(ir, op)
        &&& CFToLLVM::types_agree(ir, op)
        &&& ir.ends_last(op)
    }

    /// What ends the regions of an operation that can be lowered is a `yield` without regions.
    pub(crate) proof fn ends_with_yield(ir: Ir, op: OpId, y: OpId)
        requires
            ir.wf(),
            CFToLLVM::lowerable(ir, op),
            ir.ends(y, op),
        ensures
            ir.ops[y].kind is CfYield,
            ir.ops[y].regions.len() == 0,
    {
        let r = ir.blocks[ir.holder(y)].parent;
        ir.ordered();
        ir.position_in_range(y);
        let i = ir.ops[op].regions.index_of(r);
        assert(ir.ops[op].regions[i] == r);
        assert(y == ir.exit_op(op, i));
    }

    /// Lowering an operation that is in order leaves all else in order.
    pub(crate) proof fn reshapes(ir: Ir, op: OpId)
        requires
            ir.wf(),
            CFToLLVM::in_order(ir, op),
            CFToLLVM::lowered(ir, op).wf(),
            ir.branches_stay(),
        ensures
            ir.reshaped(CFToLLVM::lowered(ir, op), CFToLLVM::replacement(ir, op)),
            ir.types_kept(CFToLLVM::lowered(ir, op), CFToLLVM::replacement(ir, op)),
            CFToLLVM::replacement(ir, op).op == op,
    {
        match ir.ops[op].kind {
            OpKind::CfBr => {
                (BrOp { op }).reshaped(ir);
            },
            OpKind::CfCondBr => {
                (CondBrOp { op }).reshaped(ir);
            },
            OpKind::CfFor => {
                let this = ForOp { op };
                this.reshaped(ir);
                this.lowering_keeps_types(ir);
                let way = this.replacement(ir);
                assert forall|v: Value| #[trigger] ir.has_value(v) implies this.lowered(ir).def(
                    Ir::now(way, v),
                ).ty.converted() == ir.def(v).ty.converted() by {
                    assert(Ir::now(way, v) == this.renamed(ir, v));
                }
            },
            OpKind::CfNDFor => {
                (NDForOp { op }).reshaped(ir);
            },
            OpKind::CfExecuteRegion => {
                (ExecuteRegionOp { op }).reshaped(ir);
                (ExecuteRegionOp { op }).types_kept(ir);
            },
            OpKind::CfIf => {
                (IfOp { op }).reshaped(ir);
                (IfOp { op }).types_kept(ir);
            },
            _ => {},
        }
    }

    /// Lowering one operation keeps all others in order: what could be lowered, was where it
    /// belongs, and had types that agree, is so still. Branches stay in their regions.
    pub proof fn lowering_keeps_order(ir: Ir, op: OpId, other: OpId)
        requires
            ir.wf(),
            CFToLLVM::in_order(ir, op),
            CFToLLVM::lowered(ir, op).wf(),
            ir.branches_stay(),
            CFToLLVM::in_order(ir, other),
            other != op,
        ensures
            CFToLLVM::in_order(CFToLLVM::lowered(ir, op), other),
            CFToLLVM::lowered(ir, op).ops[other].kind == ir.ops[other].kind,
            CFToLLVM::lowered(ir, op).branches_stay(),
    {
        let after = CFToLLVM::lowered(ir, op);
        let way = CFToLLVM::replacement(ir, op);
        CFToLLVM::reshapes(ir, op);
        if ir.ends(other, op) {
            CFToLLVM::ends_with_yield(ir, op, other);
        }
        assert(ir.kept(other, op));
        assert(ir.same_but_renamed(after, way, other));
        ir.still_in_order(after, way, other);
    }

    /// The loops over one dimension each that the lowering of a loop over several dimensions
    /// leaves are in order.
    pub proof fn lowering_leaves_order(ir: Ir, op: OpId, left: OpId)
        requires
            ir.wf(),
            CFToLLVM::in_order(ir, op),
            CFToLLVM::lowered(ir, op).wf(),
            ir.branches_stay(),
            CFToLLVM::left_to_convert(ir, op).contains(left),
        ensures
            CFToLLVM::in_order(CFToLLVM::lowered(ir, op), left),
            CFToLLVM::lowered(ir, op).branches_stay(),
    {
        let this = NDForOp { op };
        let i = choose|i: int| 0 <= i < this.dims(ir) && left == #[trigger] this.loop_op(ir, i);
        CFToLLVM::reshapes(ir, op);
        ir.still_stays(CFToLLVM::lowered(ir, op), CFToLLVM::replacement(ir, op));
        this.loop_in_order(ir, i);
        assert(this.lowered(ir).next_op <= usize::MAX) by {
            reveal(Ir::wf);
        }
    }
}

} // verus!
