//! Lowering of [IfOp].

use crate::cf::op_interfaces::{YieldingOp, YieldingRegions};
use crate::cf::ops::IfOp;
use crate::cf::to_llvm::continuation::{branch_out, continue_after};
use crate::cf::to_llvm::llvm_ops::LlvmCondBrOp;
use crate::ir::context::Context;
use crate::ir::model::{BlockView, Ir, OpView, RegionView};
use crate::ir::rewriter::IRRewriter;
use crate::ir::types::{BlockId, Location, OpId, OpInsertionPoint, RegionId, Value};
use vstd::prelude::*;

verus! {

/// What the lowering makes of a choice:
///
/// ```text
///     <code before IfOp>
///     llvm.cond_br if %condition ^then_entry() else ^else_entry()
///
///  ^then_entry:
///     ...
///     llvm.br ^continuation(%yield_operands, ...)
///
///  ^else_entry:
///     ...
///     llvm.br ^continuation(%yield_operands, ...)
///
///  ^continuation(%results, ...):
///     <code after IfOp, using %results instead of the op's results>
/// ```
///
/// Without an `else` region, the conditional branch goes to the continuation when the
/// condition is false.
impl IfOp {
    /// Can the operation be lowered? It is in a block, has a condition, and one or two regions
    /// that can be lowered.
    pub open spec fn lowerable(self, ir: Ir) -> bool {
        &&& ir.placed(self.op)
        &&& ir.ops[self.op].operands.len() > 0
        &&& 1 <= ir.ops[self.op].regions.len() <= 2
        &&& ir.yields_outward(self.op, 0)
        &&& self.has_else(ir) ==> ir.yields_outward(self.op, 1)
    }

    /// The block that takes the results, and what follows the operation.
    pub open spec fn continuation(self, ir: Ir) -> BlockId {
        ir.block_at(0)
    }

    pub open spec fn leave_then(self, ir: Ir) -> OpId {
        ir.op_at(0)
    }

    pub open spec fn leave_else(self, ir: Ir) -> OpId {
        ir.op_at(1)
    }

    pub open spec fn decide(self, ir: Ir) -> OpId {
        ir.op_at(if self.has_else(ir) { 2 } else { 1 })
    }

    /// The values after the lowering: a result of the operation becomes an argument of the
    /// continuation.
    pub open spec fn all_renamed(self, ir: Ir, values: Seq<Value>) -> Seq<Value> {
        values.map_values(
            |v: Value| Ir::substituted(v, self.op, self.continuation(ir), 0),
        )
    }

    /// The branch that takes the place of the `yield` of region `i`.
    pub open spec fn leave_view(self, ir: Ir, i: int) -> OpView {
        OpView {
            parent: Some(self.exit(ir, i)),
            ..OpView::llvm_br(
                self.continuation(ir),
                self.all_renamed(ir, ir.ops[self.yield_op(ir, i)].operands),
            )
        }
    }

    /// Where control goes when the condition is false.
    pub open spec fn false_dest(self, ir: Ir) -> BlockId {
        if self.has_else(ir) {
            self.entry(ir, 1)
        } else {
            self.continuation(ir)
        }
    }

    /// An operation after the lowering.
    pub open spec fn lowered_op(self, ir: Ir, o: OpId) -> OpView {
        if o == self.leave_then(ir) {
            self.leave_view(ir, 0)
        } else if o == self.decide(ir) {
            OpView {
                parent: Some(ir.holder(self.op)),
                ..OpView::llvm_cond_br(
                    Ir::substituted(self.condition(ir), self.op, self.continuation(ir), 0),
                    self.entry(ir, 0),
                    Seq::empty(),
                    self.false_dest(ir),
                    Seq::empty(),
                )
            }
        } else if self.has_else(ir) && o == self.leave_else(ir) {
            self.leave_view(ir, 1)
        } else {
            OpView {
                operands: self.all_renamed(ir, ir.ops[o].operands),
                parent: if ir.followers(self.op).contains(o) {
                    Some(self.continuation(ir))
                } else {
                    ir.ops[o].parent
                },
                ..ir.ops[o]
            }
        }
    }

    /// A block after the lowering.
    pub open spec fn lowered_block(self, ir: Ir, b: BlockId) -> BlockView {
        let pre = ir.blocks[ir.holder(self.op)];
        if b == self.continuation(ir) {
            BlockView {
                label: None,
                args: ir.ops[self.op].results,
                ops: ir.followers(self.op),
                parent: pre.parent,
                loc: Location::Unknown,
            }
        } else if b == ir.holder(self.op) {
            BlockView {
                ops: pre.ops.take(ir.position(self.op)).push(self.decide(ir)),
                ..pre
            }
        } else {
            BlockView {
                ops: if b == self.exit(ir, 0) {
                    ir.blocks[b].ops.drop_last().push(self.leave_then(ir))
                } else if self.has_else(ir) && b == self.exit(ir, 1) {
                    ir.blocks[b].ops.drop_last().push(self.leave_else(ir))
                } else {
                    ir.blocks[b].ops
                },
                parent: if ir.ops[self.op].regions.contains(ir.blocks[b].parent) {
                    pre.parent
                } else {
                    ir.blocks[b].parent
                },
                ..ir.blocks[b]
            }
        }
    }

    /// The blocks of region `i`, if there is such a region.
    pub open spec fn branch_blocks(self, ir: Ir, i: int) -> Seq<BlockId> {
        if i < ir.ops[self.op].regions.len() {
            ir.regions[self.region(ir, i)].blocks
        } else {
            Seq::empty()
        }
    }

    /// The blocks of the region that holds the operation, after the lowering.
    pub open spec fn lowered_order(self, ir: Ir) -> Seq<BlockId> {
        let pre = ir.holder(self.op);
        let blocks = ir.regions[ir.blocks[pre].parent].blocks;
        let i = ir.block_position(pre) + 1;
        blocks.take(i) + self.branch_blocks(ir, 0) + self.branch_blocks(ir, 1) + seq![
            self.continuation(ir),
        ] + blocks.skip(i)
    }

    /// The representation after the lowering.
    pub open spec fn lowered(self, ir: Ir) -> Ir {
        let region = ir.blocks[ir.holder(self.op)].parent;
        let made = if self.has_else(ir) { 3nat } else { 2nat };
        Ir {
            ops: Map::new(
                |o: OpId|
                    {
                        ||| ir.ops.contains_key(o) && o != self.op && o != self.yield_op(ir, 0)
                            && !(self.has_else(ir) && o == self.yield_op(ir, 1))
                        ||| ir.next_op <= o < ir.next_op + made
                    },
                |o: OpId| self.lowered_op(ir, o),
            ),
            blocks: Map::new(
                |b: BlockId| ir.blocks.contains_key(b) || b == self.continuation(ir),
                |b: BlockId| self.lowered_block(ir, b),
            ),
            regions: ir.regions.remove_keys(ir.ops[self.op].regions.to_set()).insert(
                region,
                RegionView { blocks: self.lowered_order(ir), ..ir.regions[region] },
            ),
            next_op: ir.next_op + made,
            next_block: ir.next_block + 1,
            next_region: ir.next_region,
        }
    }

    /// The representation once the regions branch to the continuation.
    spec fn left(self, ir: Ir) -> Ir {
        let s = ir.continued(self.op).branched_out(self.yield_op(ir, 0), self.continuation(ir));
        if self.has_else(ir) {
            s.branched_out(self.yield_op(ir, 1), self.continuation(ir))
        } else {
            s
        }
    }

    /// The representation once the regions are inlined between the two halves of the block.
    spec fn entered(self, ir: Ir) -> Ir {
        let pre = ir.holder(self.op);
        let s = if self.has_else(ir) {
            self.left(ir).inlined_region(self.region(ir, 1), pre)
        } else {
            self.left(ir)
        };
        s.inlined_region(self.region(ir, 0), pre).appended(
            OpView::llvm_cond_br(
                self.condition(ir),
                self.entry(ir, 0),
                Seq::empty(),
                self.false_dest(ir),
                Seq::empty(),
            ),
            pre,
        )
    }

    /// The parts of the operation are apart from each other.
    pub(crate) proof fn apart(self, ir: Ir)
        requires
            ir.wf(),
            self.lowerable(ir),
        ensures
            ir.regions.contains_key(self.region(ir, 0)),
            ir.blocks.contains_key(ir.holder(self.op)),
            forall|o: OpId| ir.ops.contains_key(o) ==> o < ir.next_op,
            forall|b: BlockId| ir.blocks.contains_key(b) ==> b < ir.next_block,
            self.has_else(ir) ==> ir.regions.contains_key(self.region(ir, 1)) && self.region(ir, 0)
                != self.region(ir, 1) && self.exit(ir, 0) != self.exit(ir, 1) && self.yield_op(
                ir,
                0,
            ) != self.yield_op(ir, 1),
            self.exit(ir, 0) != ir.holder(self.op),
            self.has_else(ir) ==> self.exit(ir, 1) != ir.holder(self.op),
    {
        reveal(Ir::wf);
        ir.entry_exit_in_range(self.op, 0);
        ir.position_in_range(self.op);
        if self.has_else(ir) {
            ir.entry_exit_in_range(self.op, 1);
        }
    }

    /// Replacing the results and erasing the operation then gives the lowered operation.
    proof fn entered_to_lowered(self, ir: Ir)
        requires
            ir.wf(),
            self.lowerable(ir),
            ir.next_block < usize::MAX,
            self.lowered(ir).next_op <= usize::MAX,
        ensures
            self.lowered(ir) == self.entered(ir).replaced_results(
                self.op,
                self.continuation(ir),
                0,
            ).erased_op(self.op),
    {
        self.apart(ir);
        ir.entry_exit_in_range(self.op, 0);
        ir.position_in_range(self.op);
        ir.moved_from_holder(self.op);
        ir.members(self.region(ir, 0));
        if self.has_else(ir) {
            ir.entry_exit_in_range(self.op, 1);
            ir.members(self.region(ir, 1));
        }
        let pre = ir.holder(self.op);
        let cont = self.continuation(ir);
        let region = ir.blocks[pre].parent;
        let blocks = ir.regions[region].blocks;
        let i = ir.block_position(pre) + 1;
        ir.block_position_in_range(pre);
        let s1 = ir.continued(self.op);
        let s3 = self.left(ir);
        let s6 = self.entered(ir);
        let s7 = s6.replaced_results(self.op, cont, 0);
        let s8 = s7.erased_op(self.op);
        let goal = self.lowered(ir);
        let regions = ir.ops[self.op].regions;
        assert(regions[0] == self.region(ir, 0));
        assert(regions.contains(self.region(ir, 0)));
        assert(self.has_else(ir) ==> regions[1] == self.region(ir, 1));
        assert(self.has_else(ir) ==> regions.contains(self.region(ir, 1)));
        assert(forall|r: RegionId| regions.contains(r) ==> r == self.region(ir, 0) || (self.has_else(
            ir,
        ) && r == self.region(ir, 1)));
        let with_cont = blocks.insert(i, cont);
        assert(with_cont[i - 1] == pre);
        assert forall|k: int| 0 <= k < with_cont.len() && with_cont[k] == pre implies k == i
            - 1 by {
            if k < i {
                ir.block_position_unique(region, k);
            } else if k > i {
                assert(with_cont[k] == blocks[k - 1]);
                ir.block_position_unique(region, k - 1);
            }
        }
        assert(s3.regions[region].blocks == with_cont);
        assert(s3.block_position(pre) == i - 1);
        let first = self.branch_blocks(ir, 0);
        let second = self.branch_blocks(ir, 1);
        if self.has_else(ir) {
            let s4 = s3.inlined_region(self.region(ir, 1), pre);
            let order = with_cont.take(i) + second + with_cont.skip(i);
            assert(s4.regions[region].blocks == order);
            assert(order[i - 1] == pre);
            assert forall|k: int| 0 <= k < order.len() && order[k] == pre implies k == i - 1 by {
                if k < i {
                    assert(order[k] == with_cont[k]);
                } else if k < i + second.len() {
                    assert(order[k] == second[k - i]);
                    assert(second.contains(order[k]));
                } else {
                    assert(order[k] == with_cont[k - second.len()]);
                }
            }
            assert(s4.block_position(pre) == i - 1);
            assert(order.take(i) + first + order.skip(i) =~= self.lowered_order(ir));
        } else {
            assert(with_cont.take(i) + first + with_cont.skip(i) =~= self.lowered_order(ir));
        }
        assert(s7.position(self.op) == 0);
        assert(s8.ops.dom() =~= goal.ops.dom());
        assert forall|o: OpId| #[trigger] goal.ops.contains_key(o) implies s8.ops[o]
            == goal.ops[o] by {
            assert(s8.ops[o] =~= goal.ops[o]);
        }
        assert(s8.ops =~= goal.ops);
        assert(s8.blocks.dom() =~= goal.blocks.dom());
        assert forall|b: BlockId| #[trigger] goal.blocks.contains_key(b) implies s8.blocks[b]
            == goal.blocks[b] by {
            if b == cont {
                assert(s8.blocks[b].args =~= goal.blocks[b].args);
            }
            assert(s8.blocks[b] =~= goal.blocks[b]);
        }
        assert(s8.blocks =~= goal.blocks);
        assert(s8.regions =~= goal.regions);
    }

    /// Lowers the operation to branches.
    pub fn rewrite(&self, ctx: &mut Context, rewriter: &mut IRRewriter)
        requires
            old(ctx).wf(),
            self.lowerable(old(ctx)@),
        ensures
            final(ctx).wf(),
            final(ctx).extends(old(ctx).journal()),
            final(ctx)@ == self.lowered(old(ctx)@),
            final(rewriter).insertion_point() == OpInsertionPoint::AtBlockEnd(
                old(ctx)@.holder(self.op),
            ),
    {
        let ghost ir = ctx@;
        proof {
            self.apart(ir);
            ir.entry_exit_in_range(self.op, 0);
            ir.position_in_range(self.op);
            ir.moved_from_holder(self.op);
            ir.operands_there(self.op);
            if self.has_else(ir) {
                ir.entry_exit_in_range(self.op, 1);
            }
        }
        let condition: Value = self.get_condition(ctx);
        let pre_block: BlockId = ctx.parent_block(self.op).unwrap();
        let regions = ctx.regions(self.op);
        let then_entry: BlockId = self.get_entry(ctx, 0);
        let has_else: bool = self.has_else_region(ctx);
        let else_entry: Option<BlockId> = if has_else {
            Some(self.get_entry(ctx, 1))
        } else {
            None
        };

        // This op, and everything after it, moves into a new continuation block, which accepts
        // the results as arguments.
        let continuation: BlockId = continue_after(ctx, self.op);
        let ghost s1 = ctx@;
        proof {
            assert(s1.ops[self.yield_op(ir, 0)] == ir.ops[self.yield_op(ir, 0)]);
            assert(s1.exit_op(self.op, 0) == self.yield_op(ir, 0));
            assert(self.has_else(ir) ==> s1.ops[self.yield_op(ir, 1)] == ir.ops[self.yield_op(
                ir,
                1,
            )]);
        }

        // The regions must branch to the continuation, passing along the yielded values.
        let then_yield: OpId = self.get_yield(ctx, 0).get_operation();
        branch_out(ctx, rewriter, then_yield, continuation);
        if has_else {
            let ghost s2 = ctx@;
            proof {
                assert(s2.exit_op(self.op, 1) == self.yield_op(ir, 1));
            }
            let else_yield: OpId = self.get_yield(ctx, 1).get_operation();
            branch_out(ctx, rewriter, else_yield, continuation);
            ctx.inline_region(regions[1], pre_block);
        }
        ctx.inline_region(regions[0], pre_block);
        let ghost s5 = ctx@;

        // The pre-block must branch to the region that the condition asks for.
        rewriter.set_insertion_point(OpInsertionPoint::AtBlockEnd(pre_block));
        let false_dest: BlockId = match else_entry {
            Some(entry) => entry,
            None => continuation,
        };
        assert(s5.has_value(condition)) by {
            assert(ir.has_value(ir.ops[self.op].operands[0]));
            assert(s1.has_value(condition));
        }
        let pre_br: OpId = LlvmCondBrOp::new(
            ctx,
            condition,
            then_entry,
            Vec::new(),
            false_dest,
            Vec::new(),
        );
        proof {
            assert(s5.next_op < usize::MAX) by {
                reveal(Ir::wf);
            }
            s5.insert_at_end(
                OpView::llvm_cond_br(
                    condition,
                    then_entry,
                    Seq::empty(),
                    false_dest,
                    Seq::empty(),
                ),
                pre_block,
            );
        }
        rewriter.insert_op(ctx, pre_br);

        // Replace uses of this op with the continuation block's arguments.
        ctx.replace_results(self.op, continuation, 0);
        proof {
            assert(ctx@.next_op <= usize::MAX) by {
                reveal(Ir::wf);
            }
            self.emptied(ir);
        }
        ctx.erase_op(self.op);
        proof {
            self.entered_to_lowered(ir);
        }
    }

    /// Once inlined, the regions of the operation are empty.
    proof fn emptied(self, ir: Ir)
        requires
            ir.wf(),
            self.lowerable(ir),
            self.lowered(ir).next_op <= usize::MAX,
        ensures
            ({
                let s = self.entered(ir).replaced_results(self.op, self.continuation(ir), 0);
                &&& s.ops[self.op].regions == ir.ops[self.op].regions
                &&& forall|i: int|
                    0 <= i < s.ops[self.op].regions.len() ==> s.regions[
                    #[trigger] s.ops[self.op].regions[i]].blocks.len() == 0
            }),
    {
        self.apart(ir);
        ir.entry_exit_in_range(self.op, 0);
        ir.position_in_range(self.op);
        ir.moved_from_holder(self.op);
        if self.has_else(ir) {
            ir.entry_exit_in_range(self.op, 1);
        }
        let s = self.entered(ir).replaced_results(self.op, self.continuation(ir), 0);
        let region = ir.blocks[ir.holder(self.op)].parent;
        assert(self.left(ir).ops[self.op].regions == ir.ops[self.op].regions);
        assert(self.left(ir).blocks[ir.holder(self.op)].parent == region);
        assert(s.regions[self.region(ir, 0)].blocks.len() == 0);
        if self.has_else(ir) {
            let s4 = self.left(ir).inlined_region(self.region(ir, 1), ir.holder(self.op));
            assert(s4.blocks[ir.holder(self.op)].parent == region);
            assert(s.regions[self.region(ir, 1)].blocks.len() == 0);
        }
    }
}

} // verus!
