//! What the lowerings of operations that run a region once have in common: what follows the
//! operation becomes a block of its own, the continuation, to which the regions branch.

use crate::cf::to_llvm::llvm_ops::LlvmBrOp;
use crate::ir::context::Context;
use crate::ir::model::{BlockView, Def, Ir, OpView, RegionView};
use crate::ir::rewriter::IRRewriter;
use crate::ir::types::{BlockId, BlockInsertionPoint, Location, OpId, OpInsertionPoint};
use vstd::prelude::*;

verus! {

impl Ir {
    /// The block that holds an operation.
    pub open spec fn holder(self, op: OpId) -> BlockId {
        self.ops[op].parent->0
    }

    /// The operations that follow an operation in its block.
    pub open spec fn followers(self, op: OpId) -> Seq<OpId> {
        self.blocks[self.holder(op)].ops.skip(self.position(op) + 1)
    }

    /// Does region `i` of an operation end with a `yield` that has neither results nor regions,
    /// and is the operation outside of it?
    pub open spec fn yields_outward(self, op: OpId, i: int) -> bool {
        &&& self.has_exit_op(op, i)
        &&& self.blocks[self.holder(op)].parent != self.ops[op].regions[i]
        &&& self.ops[self.exit_op(op, i)].kind is CfYield
        &&& self.ops[self.exit_op(op, i)].regions.len() == 0
        &&& self.ops[self.exit_op(op, i)].results.len() == 0
    }

    /// An operation, and what follows it, is now in a new block behind its own, which takes as
    /// many arguments as the operation has results.
    pub open spec fn continued(self, op: OpId) -> Ir {
        let pre = self.holder(op);
        let cont = self.block_at(0);
        let region = self.blocks[pre].parent;
        let k = self.position(op);
        let moved = self.blocks[pre].ops.skip(k);
        Ir {
            ops: Map::new(
                |o: OpId| self.ops.contains_key(o),
                |o: OpId|
                    if moved.contains(o) {
                        OpView { parent: Some(cont), ..self.ops[o] }
                    } else {
                        self.ops[o]
                    },
            ),
            blocks: self.blocks.insert(
                pre,
                BlockView { ops: self.blocks[pre].ops.take(k), ..self.blocks[pre] },
            ).insert(
                cont,
                BlockView {
                    label: None,
                    args: Def::all_unnamed(self.ops[op].results.map_values(|d: Def| d.ty)),
                    ops: moved,
                    parent: region,
                    loc: Location::Unknown,
                },
            ),
            regions: self.regions.insert(
                region,
                RegionView {
                    blocks: self.regions[region].blocks.insert(self.block_position(pre) + 1, cont),
                    ..self.regions[region]
                },
            ),
            next_block: self.next_block + 1,
            ..self
        }
    }

    /// The last operation of its block is replaced by a branch to `dest` that forwards its
    /// operands.
    pub open spec fn branched_out(self, last: OpId, dest: BlockId) -> Ir {
        let block = self.holder(last);
        let br = self.op_at(0);
        Ir {
            ops: self.ops.remove(last).insert(
                br,
                OpView {
                    parent: Some(block),
                    ..OpView::llvm_br(dest, self.ops[last].operands)
                },
            ),
            blocks: self.blocks.insert(
                block,
                BlockView {
                    ops: self.blocks[block].ops.drop_last().push(br),
                    ..self.blocks[block]
                },
            ),
            next_op: self.next_op + 1,
            ..self
        }
    }

    /// Is `last` an operation without results or regions, at the end of its block?
    pub open spec fn can_branch_out(self, last: OpId) -> bool {
        &&& self.placed(last)
        &&& self.blocks[self.holder(last)].ops.last() == last
        &&& self.ops[last].results.len() == 0
        &&& self.ops[last].regions.len() == 0
    }

    /// What moves out of the block that holds an operation is in that block.
    pub proof fn moved_from_holder(self, op: OpId)
        requires
            self.wf(),
            self.placed(op),
        ensures
            ({
                let ops = self.blocks[self.holder(op)].ops;
                let k = self.position(op);
                &&& 0 <= k < ops.len()
                &&& ops[k] == op
                &&& ops.skip(k)[0] == op
                &&& ops.skip(k).contains(op)
                &&& ops.skip(k).remove(0) == self.followers(op)
                &&& ops.skip(k).index_of(op) == 0
                &&& forall|o: OpId| #[trigger]
                    ops.skip(k).contains(o) ==> self.ops.contains_key(o) && self.ops[o].parent
                        == Some(self.holder(op))
                &&& forall|o: OpId| #[trigger]
                    self.followers(op).contains(o) <==> o != op && ops.skip(k).contains(o)
            }),
    {
        let pre = self.holder(op);
        let ops = self.blocks[pre].ops;
        let k = self.position(op);
        self.position_in_range(op);
        let moved = ops.skip(k);
        assert(moved[0] == op);
        assert forall|o: OpId| #[trigger] moved.contains(o) implies self.ops.contains_key(o)
            && self.ops[o].parent == Some(pre) by {
            self.position_unique(pre, k + moved.index_of(o));
        }
        assert forall|j: int| 0 <= j < moved.len() && moved[j] == op implies j == 0 by {
            self.position_unique(pre, k + j);
        }
        assert forall|o: OpId| #[trigger] self.followers(op).contains(o) <==> o != op
            && moved.contains(o) by {
            let tail = self.followers(op);
            if tail.contains(o) {
                let j = tail.index_of(o);
                self.position_unique(pre, k + 1 + j);
                assert(moved[j + 1] == o);
            }
            if o != op && moved.contains(o) {
                let j = moved.index_of(o);
                assert(tail[j - 1] == o);
            }
        }
        assert(moved.remove(0) =~= self.followers(op));
    }

    /// Making the continuation and moving the end of the block there gives the continued
    /// representation.
    proof fn continued_steps(self, op: OpId)
        requires
            self.wf(),
            self.placed(op),
            self.next_block < usize::MAX,
        ensures
            self.continued(op) == self.created_block(
                BlockInsertionPoint::AfterBlock(self.holder(op)),
                None,
                self.ops[op].results.map_values(|d: Def| d.ty),
            ).moved_tail(op, self.block_at(0)),
    {
        let pre = self.holder(op);
        let types = self.ops[op].results.map_values(|d: Def| d.ty);
        let at = BlockInsertionPoint::AfterBlock(pre);
        self.position_in_range(op);
        self.created_block_keeps(at, None, types);
        self.created_block_keeps_positions(at, None, types, op);
        let s1 = self.created_block(at, None, types);
        let s2 = s1.moved_tail(op, self.block_at(0));
        let goal = self.continued(op);
        assert(Seq::<OpId>::empty() + self.blocks[pre].ops.skip(self.position(op))
            =~= self.blocks[pre].ops.skip(self.position(op)));
        assert(s2.ops =~= goal.ops);
        assert(s2.blocks =~= goal.blocks);
        assert(s2.regions =~= goal.regions);
    }

    /// The continued representation keeps all that can be referred to.
    pub proof fn continued_keeps(self, op: OpId)
        requires
            self.wf(),
            self.placed(op),
            self.next_block < usize::MAX,
        ensures
            self.keeps(self.continued(op)),
            !self.blocks.contains_key(self.block_at(0)),
            self.blocks.contains_key(self.holder(op)),
    {
        self.position_in_range(op);
        self.created_block_keeps(
            BlockInsertionPoint::AfterBlock(self.holder(op)),
            None,
            Seq::empty(),
        );
    }

    /// Appending a branch and erasing the operation before it gives the representation that
    /// branches out.
    proof fn branched_out_steps(self, last: OpId, dest: BlockId)
        requires
            self.wf(),
            self.can_branch_out(last),
            self.next_op < usize::MAX,
        ensures
            self.branched_out(last, dest) == self.appended(
                OpView::llvm_br(dest, self.ops[last].operands),
                self.holder(last),
            ).erased_op(last),
    {
        let block = self.holder(last);
        let ops = self.blocks[block].ops;
        self.position_in_range(last);
        let br = self.op_at(0);
        assert(!self.ops.contains_key(br)) by {
            reveal(Ir::wf);
        }
        let s1 = self.appended(OpView::llvm_br(dest, self.ops[last].operands), block);
        let s2 = s1.erased_op(last);
        let goal = self.branched_out(last, dest);
        let now = ops.push(br);
        assert(now[ops.len() - 1] == last);
        assert forall|k: int| 0 <= k < now.len() && now[k] == last implies k == ops.len()
            - 1 by {
            if k < ops.len() {
                self.position_unique(block, k);
                self.position_unique(block, ops.len() - 1);
            }
        }
        assert(s1.position(last) == ops.len() - 1);
        assert(now.remove(ops.len() - 1) =~= ops.drop_last().push(br));
        assert(s2.ops =~= goal.ops);
        assert(s2.blocks =~= goal.blocks);
        assert(s2.regions =~= goal.regions);
    }
}

/// Moves an operation, and what follows it, to a new block behind its own, with an argument
/// for each of its results. Gives that block.
pub(crate) fn continue_after(ctx: &mut Context, op: OpId) -> (cont: BlockId)
    requires
        old(ctx).wf(),
        old(ctx)@.placed(op),
    ensures
        final(ctx).wf(),
        final(ctx).extends(old(ctx).journal()),
        final(ctx)@ == old(ctx)@.continued(op),
        cont == old(ctx)@.block_at(0),
        old(ctx)@.next_block < usize::MAX,
        old(ctx)@.keeps(final(ctx)@),
{
    let ghost ir = ctx@;
    let types = ctx.result_types(op);
    let pre: BlockId = ctx.parent_block(op).unwrap();
    proof {
        ir.position_in_range(op);
    }
    let ghost tys = types@;
    let cont: BlockId = ctx.create_block(BlockInsertionPoint::AfterBlock(pre), None, types);
    proof {
        assert(ir.next_block < usize::MAX) by {
            reveal(Ir::wf);
        }
        ir.created_block_keeps(BlockInsertionPoint::AfterBlock(pre), None, tys);
        ir.created_block_keeps_positions(BlockInsertionPoint::AfterBlock(pre), None, tys, op);
    }
    ctx.move_tail(op, cont);
    proof {
        ir.continued_steps(op);
        ir.continued_keeps(op);
    }
    cont
}

/// Replaces the last operation of its block by a branch to `dest` that forwards its operands.
pub(crate) fn branch_out(ctx: &mut Context, rewriter: &mut IRRewriter, last: OpId, dest: BlockId)
    requires
        old(ctx).wf(),
        old(ctx)@.can_branch_out(last),
        old(ctx)@.blocks.contains_key(dest),
    ensures
        final(ctx).wf(),
        final(ctx).extends(old(ctx).journal()),
        final(ctx)@ == old(ctx)@.branched_out(last, dest),
        old(ctx)@.next_op < usize::MAX,
{
    let ghost ir = ctx@;
    proof {
        ir.operands_there(last);
        ir.position_in_range(last);
    }
    let operands = ctx.operands(last);
    rewriter.set_insertion_point(OpInsertionPoint::AfterOperation(last));
    let br: OpId = LlvmBrOp::new(ctx, dest, operands);
    proof {
        assert(ir.next_op < usize::MAX) by {
            reveal(Ir::wf);
        }
        ir.insert_after_last(OpView::llvm_br(dest, ir.ops[last].operands), last);
    }
    rewriter.insert_op(ctx, br);
    proof {
        ctx@.resultless_unused(last);
    }
    ctx.erase_op(last);
    proof {
        ir.branched_out_steps(last, dest);
    }
}

} // verus!
