//! Changes at an insertion point.

use crate::ir::context::Context;
use crate::ir::edit::Edit;
use crate::ir::model::{BlockView, Def, Ir, OpView};
use crate::ir::types::{
    BlockId, BlockInsertionPoint, Location, OpId, OpInsertionPoint, OpKind, Type, Value,
};
use vstd::prelude::*;

verus! {

impl OpView {
    /// An operation without regions that is in no block.
    pub open spec fn simple(
        kind: OpKind,
        result_types: Seq<Type>,
        operands: Seq<Value>,
        successors: Seq<BlockId>,
        segments: Seq<u32>,
    ) -> OpView {
        OpView {
            kind,
            results: Def::all_unnamed(result_types),
            operands,
            successors,
            regions: Seq::empty(),
            segments,
            parent: None,
            loc: Location::Unknown,
        }
    }
}

impl Ir {
    /// The label of the second half of a block that is split.
    pub open spec fn split_label(label: Option<Seq<char>>) -> Option<Seq<char>> {
        match label {
            Some(label) => Some(label + "_split"@),
            None => None,
        }
    }

    /// A block is cut in two: `op`, and what follows it, is now in a new block behind it.
    pub open spec fn split_before(self, op: OpId) -> Ir {
        let block = self.ops[op].parent->0;
        self.created_block(
            BlockInsertionPoint::AfterBlock(block),
            Ir::split_label(self.blocks[block].label),
            Seq::empty(),
        ).moved_tail(op, self.block_at(0))
    }

    /// An operation without results is replaced by another: the new one takes the location of
    /// the old one, unless it has one, and the old one goes away.
    pub open spec fn replaced_op(self, op: OpId, new_op: OpId) -> Ir {
        if self.ops[new_op].loc is Unknown {
            self.located_op(new_op, self.ops[op].loc).erased_op(op)
        } else {
            self.erased_op(op)
        }
    }

    /// An operation without regions, in no block, is made.
    pub open spec fn with_op(self, view: OpView) -> Ir {
        Ir { ops: self.ops.insert(self.op_at(0), view), next_op: self.next_op + 1, ..self }
    }

    /// Making an operation without regions changes nothing else.
    pub proof fn created_simple_op(
        self,
        kind: OpKind,
        result_types: Seq<Type>,
        operands: Seq<Value>,
        successors: Seq<BlockId>,
        segments: Seq<u32>,
    )
        requires
            self.wf(),
        ensures
            self.created_op(kind, result_types, operands, successors, 0, segments) == self.with_op(
                OpView::simple(kind, result_types, operands, successors, segments),
            ),
    {
        reveal(Ir::wf);
        let created = self.created_op(kind, result_types, operands, successors, 0, segments);
        let simple = OpView::simple(kind, result_types, operands, successors, segments);
        assert(created.ops[self.op_at(0)] =~= simple);
        assert(created.ops =~= self.with_op(simple).ops);
        assert(created.regions =~= self.regions);
        assert(created =~= self.with_op(simple));
    }

    /// An operation without regions is made and put at the end of a block.
    pub open spec fn appended(self, view: OpView, block: BlockId) -> Ir {
        let op = self.op_at(0);
        Ir {
            ops: self.ops.insert(op, OpView { parent: Some(block), ..view }),
            blocks: self.blocks.insert(
                block,
                BlockView { ops: self.blocks[block].ops.push(op), ..self.blocks[block] },
            ),
            next_op: self.next_op + 1,
            ..self
        }
    }

    /// Is everything that can be referred to also there in a later representation?
    pub open spec fn keeps(self, later: Ir) -> bool {
        &&& forall|v: Value| self.has_value(v) ==> #[trigger] later.has_value(v)
        &&& forall|b: BlockId|
            self.blocks.contains_key(b) ==> #[trigger] later.blocks.contains_key(b)
    }

    /// Making an operation and inserting it at the end of a block is appending it.
    pub proof fn insert_at_end(self, view: OpView, block: BlockId)
        requires
            self.wf(),
            self.blocks.contains_key(block),
            self.next_op < usize::MAX,
        ensures
            self.with_op(view).inserted_op(self.op_at(0), OpInsertionPoint::AtBlockEnd(block))
                == self.appended(view, block),
            self.keeps(self.with_op(view)),
            self.keeps(self.appended(view, block)),
            !self.ops.contains_key(self.op_at(0)),
    {
        reveal(Ir::wf);
        let op = self.op_at(0);
        let made = self.with_op(view);
        let inserted = made.inserted_op(op, OpInsertionPoint::AtBlockEnd(block));
        let appended = self.appended(view, block);
        let ops = self.blocks[block].ops;
        assert(ops.insert(ops.len() as int, op) =~= ops.push(op));
        assert(inserted.ops =~= appended.ops);
        assert(inserted.blocks =~= appended.blocks);
        assert(inserted =~= appended);
    }

    /// Making an operation and inserting it behind the last one of a block is appending it.
    pub proof fn insert_after_last(self, view: OpView, last: OpId)
        requires
            self.wf(),
            self.placed(last),
            self.blocks[self.ops[last].parent->0].ops.last() == last,
            self.next_op < usize::MAX,
        ensures
            self.with_op(view).inserted_op(self.op_at(0), OpInsertionPoint::AfterOperation(last))
                == self.appended(view, self.ops[last].parent->0),
            self.with_op(view).placed(last),
            self.keeps(self.with_op(view)),
            self.keeps(self.appended(view, self.ops[last].parent->0)),
            !self.ops.contains_key(self.op_at(0)),
    {
        reveal(Ir::wf);
        let op = self.op_at(0);
        let block = self.ops[last].parent->0;
        let ops = self.blocks[block].ops;
        self.position_in_range(last);
        self.position_unique(block, ops.len() - 1);
        let made = self.with_op(view);
        let inserted = made.inserted_op(op, OpInsertionPoint::AfterOperation(last));
        let appended = self.appended(view, block);
        assert(made.position(last) == ops.len() - 1);
        assert(ops.insert(ops.len() as int, op) =~= ops.push(op));
        assert(inserted.ops =~= appended.ops);
        assert(inserted.blocks =~= appended.blocks);
        assert(inserted =~= appended);
    }

    /// The operands of an operation are there.
    pub proof fn operands_there(self, op: OpId)
        requires
            self.wf(),
            self.ops.contains_key(op),
        ensures
            self.has_values(self.ops[op].operands),
    {
        reveal(Ir::wf);
    }

    /// The successors of an operation are there.
    pub proof fn successors_there(self, op: OpId)
        requires
            self.wf(),
            self.ops.contains_key(op),
        ensures
            self.has_blocks(self.ops[op].successors),
    {
        reveal(Ir::wf);
    }

    /// Nothing uses the results of an operation that has none.
    pub proof fn resultless_unused(self, op: OpId)
        requires
            self.wf(),
            self.ops.contains_key(op),
            self.ops[op].results.len() == 0,
        ensures
            self.unused(op),
    {
        reveal(Ir::wf);
        assert forall|u: OpId, i: int|
            #![trigger self.ops[u].operands[i]]
            self.ops.contains_key(u) && u != op && 0 <= i < self.ops[u].operands.len() implies !(
        self.ops[u].operands[i] matches Value::OpResult { op: d, .. } && d == op) by {
            assert(self.has_value(self.ops[u].operands[i]));
        }
    }

    /// Making a block keeps all that can be referred to.
    pub proof fn created_block_keeps(
        self,
        at: BlockInsertionPoint,
        label: Option<Seq<char>>,
        arg_types: Seq<Type>,
    )
        requires
            self.wf(),
        ensures
            self.keeps(self.created_block(at, label, arg_types)),
            !self.blocks.contains_key(self.block_at(0)),
    {
        reveal(Ir::wf);
    }

    /// Splitting a block keeps all that can be referred to.
    pub proof fn split_keeps(self, op: OpId)
        requires
            self.wf(),
            self.placed(op),
            self.next_block < usize::MAX,
        ensures
            self.keeps(self.split_before(op)),
            !self.blocks.contains_key(self.block_at(0)),
            self.blocks.contains_key(self.ops[op].parent->0),
    {
        reveal(Ir::wf);
        self.position_in_range(op);
        let block = self.ops[op].parent->0;
        let label = Ir::split_label(self.blocks[block].label);
        self.created_block_keeps(BlockInsertionPoint::AfterBlock(block), label, Seq::empty());
    }

    /// Making a block leaves the operations where they are.
    pub proof fn created_block_keeps_positions(
        self,
        at: BlockInsertionPoint,
        label: Option<Seq<char>>,
        arg_types: Seq<Type>,
        op: OpId,
    )
        requires
            self.wf(),
            self.block_point_valid(at),
            self.next_block < usize::MAX,
            self.placed(op),
        ensures
            self.created_block(at, label, arg_types).placed(op),
            self.created_block(at, label, arg_types).ops[op] == self.ops[op],
            self.created_block(at, label, arg_types).blocks[self.ops[op].parent->0]
                == self.blocks[self.ops[op].parent->0],
            self.created_block(at, label, arg_types).position(op) == self.position(op),
    {
        reveal(Ir::wf);
        self.position_in_range(op);
        assert(self.block_at(0) != self.ops[op].parent->0);
    }
}

/// Makes changes, and knows where the next operation goes.
#[derive(Debug)]
pub struct IRRewriter {
    point: OpInsertionPoint,
}

impl IRRewriter {
    /// Where the next operation goes.
    pub closed spec fn insertion_point(&self) -> OpInsertionPoint {
        self.point
    }

    /// A rewriter with the given insertion point.
    pub fn new(point: OpInsertionPoint) -> (rewriter: IRRewriter)
        ensures
            rewriter.insertion_point() == point,
    {
        IRRewriter { point }
    }

    /// Where the next operation goes.
    pub fn get_insertion_point(&self) -> (point: OpInsertionPoint)
        ensures
            point == self.insertion_point(),
    {
        self.point
    }

    /// Sets where the next operation goes.
    pub fn set_insertion_point(&mut self, point: OpInsertionPoint)
        ensures
            final(self).insertion_point() == point,
    {
        self.point = point;
    }

    /// The block in which the insertion point lies.
    pub fn get_insertion_block(&self, ctx: &Context) -> (block: BlockId)
        requires
            ctx@.op_point_valid(self.insertion_point()),
        ensures
            block == ctx@.op_point_block(self.insertion_point()),
    {
        match self.point {
            OpInsertionPoint::AtBlockStart(b) => b,
            OpInsertionPoint::AtBlockEnd(b) => b,
            OpInsertionPoint::BeforeOperation(o) => ctx.parent_block(o).unwrap(),
            OpInsertionPoint::AfterOperation(o) => ctx.parent_block(o).unwrap(),
            OpInsertionPoint::Unset => 0,
        }
    }

    /// Inserts an operation at the insertion point, which stays where it is.
    pub fn insert_op(&mut self, ctx: &mut Context, op: OpId)
        requires
            old(ctx).wf(),
            old(ctx)@.ops.contains_key(op),
            old(ctx)@.ops[op].parent is None,
            old(ctx)@.op_point_valid(old(self).insertion_point()),
        ensures
            final(ctx).wf(),
            final(ctx).extends(old(ctx).journal()),
            final(ctx)@ == old(ctx)@.inserted_op(op, old(self).insertion_point()),
            final(self).insertion_point() == old(self).insertion_point(),
    {
        ctx.insert_op(op, self.point);
    }

    /// Inserts an operation at the insertion point, which moves behind it.
    pub fn append_op(&mut self, ctx: &mut Context, op: OpId)
        requires
            old(ctx).wf(),
            old(ctx)@.ops.contains_key(op),
            old(ctx)@.ops[op].parent is None,
            old(ctx)@.op_point_valid(old(self).insertion_point()),
        ensures
            final(ctx).wf(),
            final(ctx).extends(old(ctx).journal()),
            final(ctx)@ == old(ctx)@.inserted_op(op, old(self).insertion_point()),
            final(self).insertion_point() == OpInsertionPoint::AfterOperation(op),
    {
        ctx.insert_op(op, self.point);
        self.point = OpInsertionPoint::AfterOperation(op);
    }

    /// Makes a block, and moves the insertion point to its end.
    pub fn create_block(
        &mut self,
        ctx: &mut Context,
        at: BlockInsertionPoint,
        label: Option<String>,
        arg_types: Vec<Type>,
    ) -> (block: BlockId)
        requires
            old(ctx).wf(),
            old(ctx)@.block_point_valid(at),
        ensures
            final(ctx).wf(),
            final(ctx).extends(old(ctx).journal()),
            block == old(ctx)@.block_at(0),
            final(ctx)@ == old(ctx)@.created_block(at, Edit::text(label), arg_types@),
            final(self).insertion_point() == OpInsertionPoint::AtBlockEnd(block),
    {
        let block: BlockId = ctx.create_block(at, label, arg_types);
        self.point = OpInsertionPoint::AtBlockEnd(block);
        block
    }

    /// Cuts the block that holds `op` in two before `op`. Gives the new block.
    pub fn split_block(&mut self, ctx: &mut Context, op: OpId) -> (block: BlockId)
        requires
            old(ctx).wf(),
            old(ctx)@.placed(op),
        ensures
            final(ctx).wf(),
            final(ctx).extends(old(ctx).journal()),
            block == old(ctx)@.block_at(0),
            final(ctx)@ == old(ctx)@.split_before(op),
            final(self).insertion_point() == old(self).insertion_point(),
    {
        let ghost before = ctx@;
        proof {
            reveal(Ir::wf);
            before.position_in_range(op);
        }
        let first: BlockId = ctx.parent_block(op).unwrap();
        let label: Option<String> = match ctx.label(first) {
            Some(label) => {
                let mut label = label;
                label.append("_split");
                Some(label)
            },
            None => None,
        };
        let ghost text = Edit::text(label);
        assert(text =~= Ir::split_label(before.blocks[first].label));
        let second: BlockId = ctx.create_block(
            BlockInsertionPoint::AfterBlock(first),
            label,
            Vec::new(),
        );
        proof {
            assert(before.next_block < usize::MAX);
            before.created_block_keeps_positions(
                BlockInsertionPoint::AfterBlock(first),
                text,
                Seq::empty(),
                op,
            );
        }
        ctx.move_tail(op, second);
        second
    }

    /// Replaces an operation without results by another.
    pub fn replace_operation(&mut self, ctx: &mut Context, op: OpId, new_op: OpId)
        requires
            old(ctx).wf(),
            old(ctx)@.ops.contains_key(op),
            old(ctx)@.ops.contains_key(new_op),
            op != new_op,
            old(ctx)@.ops[op].results.len() == 0,
            forall|i: int|
                0 <= i < old(ctx)@.ops[op].regions.len()
                    ==> old(ctx)@.regions[#[trigger] old(ctx)@.ops[op].regions[i]].blocks.len()
                    == 0,
        ensures
            final(ctx).wf(),
            final(ctx).extends(old(ctx).journal()),
            final(ctx)@ == old(ctx)@.replaced_op(op, new_op),
            final(self).insertion_point() == old(self).insertion_point(),
    {
        let ghost before = ctx@;
        proof {
            reveal(Ir::wf);
        }
        let unknown: bool = match ctx.op_loc(new_op) {
            Location::Unknown => true,
            Location::Known(_) => false,
        };
        if unknown {
            let loc: Location = ctx.op_loc(op);
            ctx.locate_op(new_op, loc);
        }
        proof {
            ctx@.resultless_unused(op);
        }
        ctx.erase_op(op);
    }
}

} // verus!
