//! Lowering of [BrOp] and [CondBrOp].

use crate::cf::ops::{BrOp, CondBrOp};
use crate::cf::to_llvm::llvm_ops::{LlvmBrOp, LlvmCondBrOp};
use crate::ir::context::Context;
use crate::ir::model::{BlockView, Ir, OpView};
use crate::ir::rewriter::IRRewriter;
use crate::ir::types::{BlockId, OpId, OpInsertionPoint, Value};
use vstd::prelude::*;

verus! {

impl Ir {
    /// A new operation takes the place, and the location, of another.
    pub open spec fn swapped(self, op: OpId, view: OpView) -> Ir {
        let block = self.holder(op);
        let new = self.op_at(0);
        Ir {
            ops: self.ops.remove(op).insert(
                new,
                OpView { parent: Some(block), loc: self.ops[op].loc, ..view },
            ),
            blocks: self.blocks.insert(
                block,
                BlockView {
                    ops: self.blocks[block].ops.update(self.position(op), new),
                    ..self.blocks[block]
                },
            ),
            next_op: self.next_op + 1,
            ..self
        }
    }

    /// Can another operation take the place of this one? It is in a block, and has neither
    /// results nor regions.
    pub open spec fn swappable(self, op: OpId) -> bool {
        &&& self.placed(op)
        &&& self.ops[op].results.len() == 0
        &&& self.ops[op].regions.len() == 0
    }

    /// Inserting a new operation before another, and replacing that by it, swaps them.
    proof fn swapped_steps(self, op: OpId, view: OpView)
        requires
            self.wf(),
            self.swappable(op),
            self.next_op < usize::MAX,
            view.loc is Unknown,
        ensures
            self.with_op(view).placed(op),
            self.with_op(view).ops[op] == self.ops[op],
            self.with_op(view).inserted_op(
                self.op_at(0),
                OpInsertionPoint::BeforeOperation(op),
            ).ops[op] == self.ops[op],
            self.swapped(op, view) == self.with_op(view).inserted_op(
                self.op_at(0),
                OpInsertionPoint::BeforeOperation(op),
            ).replaced_op(op, self.op_at(0)),
    {
        self.position_in_range(op);
        let block = self.holder(op);
        let ops = self.blocks[block].ops;
        let k = self.position(op);
        let new = self.op_at(0);
        assert(!self.ops.contains_key(new)) by {
            reveal(Ir::wf);
        }
        let s1 = self.with_op(view);
        let s2 = s1.inserted_op(new, OpInsertionPoint::BeforeOperation(op));
        let s3 = s2.located_op(new, self.ops[op].loc);
        let s4 = s3.erased_op(op);
        let goal = self.swapped(op, view);
        let now = ops.insert(k, new);
        assert(s1.position(op) == k);
        assert(s3.blocks[block].ops == now);
        assert(now[k + 1] == op);
        assert forall|q: int| 0 <= q < now.len() && now[q] == op implies q == k + 1 by {
            if q < k {
                self.position_unique(block, q);
            } else if q > k {
                assert(now[q] == ops[q - 1]);
                self.position_unique(block, q - 1);
            }
        }
        assert(s3.position(op) == k + 1);
        assert(now.remove(k + 1) =~= ops.update(k, new));
        assert(s4.ops =~= goal.ops);
        assert(s4.blocks =~= goal.blocks);
        assert(s4.regions =~= goal.regions);
    }
}

/// Puts the new operation `new` in the place of `op`.
fn swap(
    ctx: &mut Context,
    rewriter: &mut IRRewriter,
    op: OpId,
    new: OpId,
    Ghost(ir): Ghost<Ir>,
    Ghost(view): Ghost<OpView>,
)
    requires
        old(ctx).wf(),
        ir.wf(),
        ir.swappable(op),
        view.parent is None,
        view.loc is Unknown,
        old(ctx)@ == ir.with_op(view),
        new == ir.op_at(0),
    ensures
        final(ctx).wf(),
        final(ctx).extends(old(ctx).journal()),
        final(ctx)@ == ir.swapped(op, view),
        final(rewriter).insertion_point() == OpInsertionPoint::BeforeOperation(op),
{
    proof {
        assert(ir.next_op < usize::MAX) by {
            reveal(Ir::wf);
        }
        ir.swapped_steps(op, view);
        assert(!ir.ops.contains_key(new)) by {
            reveal(Ir::wf);
        }
    }
    rewriter.set_insertion_point(OpInsertionPoint::BeforeOperation(op));
    rewriter.insert_op(ctx, new);
    rewriter.replace_operation(ctx, op, new);
}

impl BrOp {
    /// Can the branch be lowered? It is in a block, has a successor, and neither results nor
    /// regions.
    pub open spec fn lowerable(self, ir: Ir) -> bool {
        ir.swappable(self.op) && ir.ops[self.op].successors.len() > 0
    }

    /// The representation after the lowering: a branch of the LLVM dialect to the same block,
    /// with the same operands, stands in the place of this one.
    pub open spec fn lowered(self, ir: Ir) -> Ir {
        ir.swapped(
            self.op,
            OpView::llvm_br(ir.ops[self.op].successors[0], ir.ops[self.op].operands),
        )
    }

    /// Lowers the branch.
    pub fn rewrite(&self, ctx: &mut Context, rewriter: &mut IRRewriter)
        requires
            old(ctx).wf(),
            self.lowerable(old(ctx)@),
        ensures
            final(ctx).wf(),
            final(ctx).extends(old(ctx).journal()),
            final(ctx)@ == self.lowered(old(ctx)@),
            final(rewriter).insertion_point() == OpInsertionPoint::BeforeOperation(self.op),
    {
        let ghost ir = ctx@;
        proof {
            ir.operands_there(self.op);
            ir.successors_there(self.op);
        }
        let dest: BlockId = ctx.successors(self.op)[0];
        let dest_opds = self.successor_operands(ctx, 0);
        let new_op: OpId = LlvmBrOp::new(ctx, dest, dest_opds);
        swap(
            ctx,
            rewriter,
            self.op,
            new_op,
            Ghost(ir),
            Ghost(OpView::llvm_br(dest, ir.ops[self.op].operands)),
        );
    }
}

impl CondBrOp {
    /// Can the branch be lowered? It is in a block, has two successors, a condition, operands
    /// for the successors, and neither results nor regions.
    pub open spec fn lowerable(self, ir: Ir) -> bool {
        &&& ir.swappable(self.op)
        &&& ir.ops[self.op].successors.len() > 1
        &&& ir.ops[self.op].operands.len() > 0
        &&& ir.ops[self.op].has_segment(2)
    }

    /// The representation after the lowering: a conditional branch of the LLVM dialect to the
    /// same blocks, with the same operands, stands in the place of this one.
    pub open spec fn lowered(self, ir: Ir) -> Ir {
        let op = ir.ops[self.op];
        ir.swapped(
            self.op,
            OpView::llvm_cond_br(
                op.operands[0],
                op.successors[0],
                op.segment(1),
                op.successors[1],
                op.segment(2),
            ),
        )
    }

    /// Lowers the branch.
    pub fn rewrite(&self, ctx: &mut Context, rewriter: &mut IRRewriter)
        requires
            old(ctx).wf(),
            self.lowerable(old(ctx)@),
        ensures
            final(ctx).wf(),
            final(ctx).extends(old(ctx).journal()),
            final(ctx)@ == self.lowered(old(ctx)@),
            final(rewriter).insertion_point() == OpInsertionPoint::BeforeOperation(self.op),
    {
        let ghost ir = ctx@;
        let ghost op = ir.ops[self.op];
        proof {
            ir.operands_there(self.op);
            ir.successors_there(self.op);
            op.earlier_segment(1, 2);
            op.segment_in_range(1);
            op.segment_in_range(2);
        }
        let condition: Value = self.get_operand_condition(ctx);
        let successors = ctx.successors(self.op);
        let true_dest_opds = self.successor_operands(ctx, 0);
        let false_dest_opds = self.successor_operands(ctx, 1);
        assert forall|i: int| 0 <= i < true_dest_opds@.len() implies ir.has_value(
            #[trigger] true_dest_opds@[i],
        ) by {
            assert(true_dest_opds@[i] == op.operands[op.segment_start(1) + i]);
        }
        assert forall|i: int| 0 <= i < false_dest_opds@.len() implies ir.has_value(
            #[trigger] false_dest_opds@[i],
        ) by {
            assert(false_dest_opds@[i] == op.operands[op.segment_start(2) + i]);
        }
        let new_op: OpId = LlvmCondBrOp::new(
            ctx,
            condition,
            successors[0],
            true_dest_opds,
            successors[1],
            false_dest_opds,
        );
        swap(
            ctx,
            rewriter,
            self.op,
            new_op,
            Ghost(ir),
            Ghost(
                OpView::llvm_cond_br(
                    op.operands[0],
                    op.successors[0],
                    op.segment(1),
                    op.successors[1],
                    op.segment(2),
                ),
            ),
        );
    }
}

} // verus!
