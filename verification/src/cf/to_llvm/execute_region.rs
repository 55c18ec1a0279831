//! Lowering of [ExecuteRegionOp].

use crate::cf::op_interfaces::{YieldingOp, YieldingRegions};
use crate::cf::ops::ExecuteRegionOp;
use crate::cf::to_llvm::continuation::{branch_out, continue_after};
use crate::cf::to_llvm::llvm_ops::LlvmBrOp;
use crate::ir::context::Context;
use crate::ir::model::{BlockView, Ir, OpView, RegionView};
use crate::ir::rewriter::IRRewriter;
use crate::ir::types::{BlockId, Location, OpId, OpInsertionPoint, RegionId, Value};
use vstd::prelude::*;

verus! {

/// What the lowering makes of a region that runs once:
///
/// ```text
///     <code before ExecuteRegionOp>
///     llvm.br ^region_entry
///
///  ^region_entry:
///     ... (region body, possibly multiple blocks) ...
///
///  ^region_exit:
///     ...
///     llvm.br ^continuation(%yield_operands, ...)
///
///  ^continuation(%results, ...):
///     <code after ExecuteRegionOp, using %results instead of the op's results>
/// ```
impl ExecuteRegionOp {
    /// Can the operation be lowered? It is in a block, has one region with a body, and the body
    /// ends with a `yield` without results.
    pub open spec fn lowerable(self, ir: Ir) -> bool {
        &&& ir.placed(self.op)
        &&& ir.ops[self.op].regions.len() == 1
        &&& ir.yields_outward(self.op, 0)
    }

    /// The block that takes the results, and what follows the operation.
    pub open spec fn continuation(self, ir: Ir) -> BlockId {
        ir.block_at(0)
    }

    pub open spec fn leave(self, ir: Ir) -> OpId {
        ir.op_at(0)
    }

    pub open spec fn enter(self, ir: Ir) -> OpId {
        ir.op_at(1)
    }

    /// The values after the lowering: a result of the operation becomes an argument of the
    /// continuation.
    pub open spec fn all_renamed(self, ir: Ir, values: Seq<Value>) -> Seq<Value> {
        values.map_values(
            |v: Value| Ir::substituted(v, self.op, self.continuation(ir), 0),
        )
    }

    /// An operation after the lowering.
    pub open spec fn lowered_op(self, ir: Ir, o: OpId) -> OpView {
        if o == self.leave(ir) {
            OpView {
                parent: Some(self.exit(ir)),
                ..OpView::llvm_br(
                    self.continuation(ir),
                    self.all_renamed(ir, ir.ops[self.yield_op(ir)].operands),
                )
            }
        } else if o == self.enter(ir) {
            OpView {
                parent: Some(ir.holder(self.op)),
                ..OpView::llvm_br(self.entry(ir), Seq::empty())
            }
        } else {
            OpView {
                operands: self.all_renamed(ir, ir.ops[o].operands),
                parent: if ir.followers(self.op).contains(o) {
                    Some(self.continuation(ir))
                } else {
                    ir.ops[o].parent
                },
                ..ir.ops[o]
            }
        }
    }

    /// A block after the lowering.
    pub open spec fn lowered_block(self, ir: Ir, b: BlockId) -> BlockView {
        let pre = ir.blocks[ir.holder(self.op)];
        if b == self.continuation(ir) {
            BlockView {
                label: None,
                args: ir.ops[self.op].results,
                ops: ir.followers(self.op),
                parent: pre.parent,
                loc: Location::Unknown,
            }
        } else if b == ir.holder(self.op) {
            BlockView {
                ops: pre.ops.take(ir.position(self.op)).push(self.enter(ir)),
                ..pre
            }
        } else {
            BlockView {
                ops: if b == self.exit(ir) {
                    ir.blocks[b].ops.drop_last().push(self.leave(ir))
                } else {
                    ir.blocks[b].ops
                },
                parent: if ir.blocks[b].parent == self.body(ir) {
                    pre.parent
                } else {
                    ir.blocks[b].parent
                },
                ..ir.blocks[b]
            }
        }
    }

    /// The blocks of the region that holds the operation, after the lowering.
    pub open spec fn lowered_order(self, ir: Ir) -> Seq<BlockId> {
        let pre = ir.holder(self.op);
        let blocks = ir.regions[ir.blocks[pre].parent].blocks;
        let i = ir.block_position(pre) + 1;
        blocks.take(i) + ir.regions[self.body(ir)].blocks + seq![self.continuation(ir)]
            + blocks.skip(i)
    }

    /// The representation after the lowering.
    pub open spec fn lowered(self, ir: Ir) -> Ir {
        let region = ir.blocks[ir.holder(self.op)].parent;
        Ir {
            ops: Map::new(
                |o: OpId|
                    (ir.ops.contains_key(o) && o != self.op && o != self.yield_op(ir))
                        || ir.next_op <= o < ir.next_op + 2,
                |o: OpId| self.lowered_op(ir, o),
            ),
            blocks: Map::new(
                |b: BlockId| ir.blocks.contains_key(b) || b == self.continuation(ir),
                |b: BlockId| self.lowered_block(ir, b),
            ),
            regions: ir.regions.remove(self.body(ir)).insert(
                region,
                RegionView { blocks: self.lowered_order(ir), ..ir.regions[region] },
            ),
            next_op: ir.next_op + 2,
            next_block: ir.next_block + 1,
            next_region: ir.next_region,
        }
    }

    /// The representation once the region is inlined between the two halves of the block.
    spec fn entered(self, ir: Ir) -> Ir {
        ir.continued(self.op).branched_out(
            self.yield_op(ir),
            self.continuation(ir),
        ).inlined_region(self.body(ir), ir.holder(self.op)).appended(
            OpView::llvm_br(self.entry(ir), Seq::empty()),
            ir.holder(self.op),
        )
    }

    /// Replacing the results and erasing the operation then gives the lowered operation.
    proof fn entered_to_lowered(self, ir: Ir)
        requires
            ir.wf(),
            self.lowerable(ir),
            ir.next_block < usize::MAX,
            ir.next_op + 2 <= usize::MAX,
        ensures
            self.lowered(ir) == self.entered(ir).replaced_results(
                self.op,
                self.continuation(ir),
                0,
            ).erased_op(self.op),
    {
        ir.entry_exit_in_range(self.op, 0);
        ir.position_in_range(self.op);
        ir.moved_from_holder(self.op);
        assert(forall|o: OpId| ir.ops.contains_key(o) ==> o < ir.next_op) by {
            reveal(Ir::wf);
        }
        assert(forall|b: BlockId| ir.blocks.contains_key(b) ==> b < ir.next_block) by {
            reveal(Ir::wf);
        }
        let pre = ir.holder(self.op);
        let cont = self.continuation(ir);
        let region = ir.blocks[pre].parent;
        let blocks = ir.regions[region].blocks;
        let i = ir.block_position(pre) + 1;
        let inner = ir.regions[self.body(ir)].blocks;
        let y = self.yield_op(ir);
        ir.block_position_in_range(pre);
        ir.members(self.body(ir));
        let s1 = ir.continued(self.op);
        let s2 = s1.branched_out(y, cont);
        let s3 = s2.inlined_region(self.body(ir), pre);
        let s4 = self.entered(ir);
        let s5 = s4.replaced_results(self.op, cont, 0);
        let s6 = s5.erased_op(self.op);
        let goal = self.lowered(ir);
        assert(s1.holder(y) == self.exit(ir));
        assert(s1.ops[y] == ir.ops[y]);
        // The block stands where it stood.
        let with_cont = blocks.insert(i, cont);
        assert(s2.regions[region].blocks == with_cont);
        assert(s2.block_position(pre) == i - 1) by {
            assert(with_cont[i - 1] == pre);
            assert forall|k: int| 0 <= k < with_cont.len() && with_cont[k] == pre implies k == i
                - 1 by {
                if k < i {
                    ir.block_position_unique(region, k);
                } else if k > i {
                    assert(with_cont[k] == blocks[k - 1]);
                    ir.block_position_unique(region, k - 1);
                }
            }
        }
        assert(with_cont.take(i) + inner + with_cont.skip(i) =~= self.lowered_order(ir));
        assert(s5.position(self.op) == 0);
        assert(s6.ops.dom() =~= goal.ops.dom());
        assert forall|o: OpId| #[trigger] goal.ops.contains_key(o) implies s6.ops[o]
            == goal.ops[o] by {
            assert(s6.ops[o] =~= goal.ops[o]);
        }
        assert(s6.ops =~= goal.ops);
        assert(s6.blocks.dom() =~= goal.blocks.dom());
        assert forall|b: BlockId| #[trigger] goal.blocks.contains_key(b) implies s6.blocks[b]
            == goal.blocks[b] by {
            if b == cont {
                assert(s6.blocks[b].args =~= goal.blocks[b].args);
            }
            assert(s6.blocks[b] =~= goal.blocks[b]);
        }
        assert(s6.blocks =~= goal.blocks);
        assert(s6.regions =~= goal.regions);
    }

    /// Lowers the operation to branches.
    pub fn rewrite(&self, ctx: &mut Context, rewriter: &mut IRRewriter)
        requires
            old(ctx).wf(),
            self.lowerable(old(ctx)@),
        ensures
            final(ctx).wf(),
            final(ctx).extends(old(ctx).journal()),
            final(ctx)@ == self.lowered(old(ctx)@),
            final(rewriter).insertion_point() == OpInsertionPoint::AtBlockEnd(
                old(ctx)@.holder(self.op),
            ),
    {
        let ghost ir = ctx@;
        let ghost y = self.yield_op(ir);
        proof {
            ir.entry_exit_in_range(self.op, 0);
            ir.position_in_range(self.op);
            ir.moved_from_holder(self.op);
            assert(forall|o: OpId| ir.ops.contains_key(o) ==> o < ir.next_op) by {
                reveal(Ir::wf);
            }
            assert(forall|b: BlockId| ir.blocks.contains_key(b) ==> b < ir.next_block) by {
                reveal(Ir::wf);
            }
        }
        let region_entry: BlockId = self.get_entry(ctx, 0);
        let body: RegionId = ctx.regions(self.op)[0];
        let pre_block: BlockId = ctx.parent_block(self.op).unwrap();

        // This op, and everything after it, moves into a new continuation block, which accepts
        // the region's results as arguments.
        let continuation: BlockId = continue_after(ctx, self.op);
        let ghost s1 = ctx@;
        proof {
            assert(s1.ops[y] == ir.ops[y]);
            assert(s1.exit_op(self.op, 0) == y);
        }

        // The exit block of the region must branch to the continuation, passing along the
        // yielded values.
        let yield_op: OpId = self.get_yield(ctx, 0).get_operation();
        branch_out(ctx, rewriter, yield_op, continuation);

        // Inline the region's blocks between the pre-block and the continuation.
        ctx.inline_region(body, pre_block);
        let ghost s3 = ctx@;

        // The pre-block must branch to the region's (former) entry block.
        rewriter.set_insertion_point(OpInsertionPoint::AtBlockEnd(pre_block));
        let pre_br: OpId = LlvmBrOp::new(ctx, region_entry, Vec::new());
        proof {
            assert(s3.next_op < usize::MAX) by {
                reveal(Ir::wf);
            }
            s3.insert_at_end(OpView::llvm_br(region_entry, Seq::empty()), pre_block);
        }
        rewriter.insert_op(ctx, pre_br);

        // Replace uses of this op with the continuation block's arguments.
        ctx.replace_results(self.op, continuation, 0);
        ctx.erase_op(self.op);
        proof {
            self.entered_to_lowered(ir);
        }
    }
}

} // verus!
