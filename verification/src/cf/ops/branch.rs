//! Branches between blocks.

use crate::ir::context::Context;
use crate::ir::model::{Ir, OpView};
use crate::ir::segments::Segments;
use crate::ir::types::{BlockId, OpId, OpKind, Type, Value};
use vstd::prelude::*;

verus! {

/// Unconditional branch.
///
/// ## Operand(s)
/// | operand | description |
/// |-----|-------|
/// | `dest_opds` | (variadic) values forwarded to `dest` as block arguments |
///
/// ## Successor(s)
/// | successor | description |
/// |-----|-------|
/// | `dest` | target block |
#[derive(Debug, Clone, Copy, PartialEq, Eq, Structural, Hash)]
pub struct BrOp {
    pub op: OpId,
}

impl BrOp {
    /// A `BrOp` that is in no block.
    pub open spec fn view(dest: BlockId, dest_opds: Seq<Value>) -> OpView {
        OpView::simple(OpKind::CfBr, Seq::empty(), dest_opds, seq![dest], Seq::empty())
    }

    /// Creates a new `BrOp` branching to `dest`, forwarding `dest_opds` as its block arguments.
    pub fn new(ctx: &mut Context, dest: BlockId, dest_opds: Vec<Value>) -> (this: Self)
        requires
            old(ctx).wf(),
            old(ctx)@.has_values(dest_opds@),
            old(ctx)@.blocks.contains_key(dest),
        ensures
            final(ctx).wf(),
            final(ctx).extends(old(ctx).journal()),
            this.op == old(ctx)@.op_at(0),
            final(ctx)@ == old(ctx)@.with_op(BrOp::view(dest, dest_opds@)),
    {
        let successors: Vec<BlockId> = vec![dest];
        assert(successors@ =~= seq![dest]);
        proof {
            ctx@.created_simple_op(
                OpKind::CfBr,
                Seq::empty(),
                dest_opds@,
                seq![dest],
                Seq::empty(),
            );
        }
        let op: OpId = ctx.create_op(
            OpKind::CfBr,
            Vec::new(),
            dest_opds,
            successors,
            0,
            Vec::new(),
        );
        BrOp { op }
    }

    /// The values forwarded to the only successor.
    pub fn successor_operands(&self, ctx: &Context, succ_idx: usize) -> (values: Vec<Value>)
        requires
            ctx@.ops.contains_key(self.op),
            succ_idx == 0,
        ensures
            values@ == ctx@.ops[self.op].operands,
    {
        ctx.operands(self.op)
    }

    /// The representation with one more value forwarded.
    pub open spec fn forwarding_more(self, ir: Ir, operand: Value) -> Ir {
        ir.set_operands(self.op, ir.ops[self.op].operands.push(operand), ir.ops[self.op].segments)
    }

    /// The representation with one value less forwarded.
    pub open spec fn forwarding_less(self, ir: Ir, opd_idx: int) -> Ir {
        ir.set_operands(
            self.op,
            ir.ops[self.op].operands.remove(opd_idx),
            ir.ops[self.op].segments,
        )
    }

    /// Forwards one more value to the only successor. Gives its position among them.
    pub fn add_successor_operand(
        &self,
        ctx: &mut Context,
        succ_idx: usize,
        operand: Value,
    ) -> (idx: usize)
        requires
            old(ctx).wf(),
            old(ctx)@.ops.contains_key(self.op),
            old(ctx)@.has_value(operand),
            succ_idx == 0,
        ensures
            final(ctx).wf(),
            final(ctx).extends(old(ctx).journal()),
            idx == old(ctx)@.ops[self.op].operands.len(),
            final(ctx)@ == self.forwarding_more(old(ctx)@, operand),
            final(ctx)@.ops[self.op].operands == old(ctx)@.ops[self.op].operands + seq![operand],
    {
        proof {
            ctx@.operands_there(self.op);
        }
        let mut operands = ctx.operands(self.op);
        let idx: usize = operands.len();
        operands.push(operand);
        let segments = ctx.segments(self.op);
        ctx.set_operands(self.op, operands, segments);
        idx
    }

    /// Stops forwarding one of the values.
    pub fn remove_successor_operand(
        &self,
        ctx: &mut Context,
        succ_idx: usize,
        opd_idx: usize,
    ) -> (removed: Value)
        requires
            old(ctx).wf(),
            old(ctx)@.ops.contains_key(self.op),
            succ_idx == 0,
            opd_idx < old(ctx)@.ops[self.op].operands.len(),
        ensures
            final(ctx).wf(),
            final(ctx).extends(old(ctx).journal()),
            removed == old(ctx)@.ops[self.op].operands[opd_idx as int],
            final(ctx)@ == self.forwarding_less(old(ctx)@, opd_idx as int),
            final(ctx)@.ops[self.op].operands == old(ctx)@.ops[self.op].operands.take(
                opd_idx as int,
            ) + old(ctx)@.ops[self.op].operands.skip(opd_idx + 1),
    {
        let ghost ir = ctx@;
        proof {
            ir.operands_there(self.op);
        }
        let mut operands = ctx.operands(self.op);
        let removed: Value = operands.remove(opd_idx);
        assert forall|i: int| 0 <= i < operands@.len() implies ir.has_value(
            #[trigger] operands@[i],
        ) by {
            if i < opd_idx {
                assert(operands@[i] == ir.ops[self.op].operands[i]);
            } else {
                assert(operands@[i] == ir.ops[self.op].operands[i + 1]);
            }
        }
        let segments = ctx.segments(self.op);
        ctx.set_operands(self.op, operands, segments);
        removed
    }

    /// Taking away the value that was just forwarded undoes forwarding it.
    pub proof fn add_then_remove(self, ir: Ir, operand: Value)
        requires
            ir.ops.contains_key(self.op),
        ensures
            ({
                let idx = ir.ops[self.op].operands.len() as int;
                let more = self.forwarding_more(ir, operand);
                &&& more.ops[self.op].operands[idx] == operand
                &&& self.forwarding_less(more, idx) == ir
            }),
    {
        let operands = ir.ops[self.op].operands;
        let idx = operands.len() as int;
        let back = self.forwarding_less(self.forwarding_more(ir, operand), idx);
        assert(operands.push(operand).remove(idx) =~= operands);
        assert(back.ops =~= ir.ops);
    }
}

/// Conditional branch.
///
/// ## Operand(s)
/// | operand | description |
/// |-----|-------|
/// | `condition` | signless 1-bit integer |
/// | `true_dest_opds` | (variadic) values forwarded to `true_dest` as block arguments |
/// | `false_dest_opds` | (variadic) values forwarded to `false_dest` as block arguments |
///
/// ## Successor(s)
/// | successor | description |
/// |-----|-------|
/// | `true_dest` | target block when `condition` is true |
/// | `false_dest` | target block when `condition` is false |
#[derive(Debug, Clone, Copy, PartialEq, Eq, Structural, Hash)]
pub struct CondBrOp {
    pub op: OpId,
}

/// Why a [CondBrOp] is not in order.
#[derive(Debug, Clone, Copy, PartialEq, Eq, Structural)]
pub enum CondBrOpVerifyErr {
    IncorrectConditionType,
}

impl CondBrOpVerifyErr {
    /// What is wrong, in words.
    pub open spec fn text(self) -> Seq<char> {
        "CondBrOp condition operand must be a signless 1-bit integer (i1)"@
    }

    /// Says what is wrong.
    pub fn message(&self) -> (message: &'static str)
        ensures
            message@ == self.text(),
    {
        "CondBrOp condition operand must be a signless 1-bit integer (i1)"
    }
}

impl CondBrOp {
    /// A `CondBrOp` that is in no block.
    pub open spec fn view(
        condition: Value,
        true_dest: BlockId,
        true_dest_opds: Seq<Value>,
        false_dest: BlockId,
        false_dest_opds: Seq<Value>,
    ) -> OpView {
        OpView::simple(
            OpKind::CfCondBr,
            Seq::empty(),
            seq![condition] + true_dest_opds + false_dest_opds,
            seq![true_dest, false_dest],
            seq![1u32, true_dest_opds.len() as u32, false_dest_opds.len() as u32],
        )
    }

    /// Creates a new `CondBrOp`.
    pub fn new(
        ctx: &mut Context,
        condition: Value,
        true_dest: BlockId,
        true_dest_opds: Vec<Value>,
        false_dest: BlockId,
        false_dest_opds: Vec<Value>,
    ) -> (this: Self)
        requires
            old(ctx).wf(),
            old(ctx)@.has_value(condition),
            old(ctx)@.has_values(true_dest_opds@),
            old(ctx)@.has_values(false_dest_opds@),
            old(ctx)@.blocks.contains_key(true_dest),
            old(ctx)@.blocks.contains_key(false_dest),
            true_dest_opds@.len() <= u32::MAX,
            false_dest_opds@.len() <= u32::MAX,
        ensures
            final(ctx).wf(),
            final(ctx).extends(old(ctx).journal()),
            this.op == old(ctx)@.op_at(0),
            final(ctx)@ == old(ctx)@.with_op(
                CondBrOp::view(
                    condition,
                    true_dest,
                    true_dest_opds@,
                    false_dest,
                    false_dest_opds@,
                ),
            ),
    {
        let (operands, segments) = Segments::of_branch(
            condition,
            true_dest_opds,
            false_dest_opds,
        );
        let successors: Vec<BlockId> = vec![true_dest, false_dest];
        assert(successors@ =~= seq![true_dest, false_dest]);
        proof {
            ctx@.created_simple_op(
                OpKind::CfCondBr,
                Seq::empty(),
                operands@,
                seq![true_dest, false_dest],
                segments@,
            );
        }
        let op: OpId = ctx.create_op(
            OpKind::CfCondBr,
            Vec::new(),
            operands,
            successors,
            0,
            segments,
        );
        CondBrOp { op }
    }

    /// The condition operand.
    pub fn get_operand_condition(&self, ctx: &Context) -> (v: Value)
        requires
            ctx@.ops.contains_key(self.op),
            ctx@.ops[self.op].operands.len() > 0,
        ensures
            v == ctx@.ops[self.op].operands[0],
    {
        ctx.operands(self.op)[0]
    }

    /// What the check finds.
    pub open spec fn verified(self, ir: Ir) -> Result<(), CondBrOpVerifyErr> {
        if ir.def(ir.ops[self.op].operands[0]).ty == Type::signless(1) {
            Ok(())
        } else {
            Err(CondBrOpVerifyErr::IncorrectConditionType)
        }
    }

    /// Checks that the condition is a signless 1-bit integer.
    pub fn verify(&self, ctx: &Context) -> (result: Result<(), CondBrOpVerifyErr>)
        requires
            ctx.wf(),
            ctx@.ops.contains_key(self.op),
            ctx@.ops[self.op].operands.len() > 0,
        ensures
            result == self.verified(ctx@),
    {
        proof {
            ctx@.operands_there(self.op);
        }
        let condition: Value = self.get_operand_condition(ctx);
        if ctx.type_of(condition) == Type::i1() {
            Ok(())
        } else {
            Err(CondBrOpVerifyErr::IncorrectConditionType)
        }
    }

    /// The values forwarded to a successor: the segment behind the condition's, or the one
    /// behind that.
    pub fn successor_operands(&self, ctx: &Context, succ_idx: usize) -> (values: Vec<Value>)
        requires
            ctx@.ops.contains_key(self.op),
            succ_idx == 0 || succ_idx == 1,
            ctx@.ops[self.op].has_segment(succ_idx + 1),
        ensures
            values@ == ctx@.ops[self.op].segment(succ_idx + 1),
    {
        // Skip the first segment, which is the condition.
        ctx.get_segment(self.op, succ_idx + 1)
    }

    /// The representation with one more value forwarded to a successor.
    pub open spec fn forwarding_more(self, ir: Ir, succ_idx: int, operand: Value) -> Ir {
        let view = ir.ops[self.op];
        ir.set_operands(
            self.op,
            view.operands.insert(view.segment_start(succ_idx + 2), operand),
            view.segments.update(succ_idx + 1, (view.segments[succ_idx + 1] + 1) as u32),
        )
    }

    /// The representation with one value less forwarded to a successor.
    pub open spec fn forwarding_less(self, ir: Ir, succ_idx: int, opd_idx: int) -> Ir {
        let view = ir.ops[self.op];
        ir.set_operands(
            self.op,
            view.operands.remove(view.segment_start(succ_idx + 1) + opd_idx),
            view.segments.update(succ_idx + 1, (view.segments[succ_idx + 1] - 1) as u32),
        )
    }

    /// Forwards one more value to a successor. Gives its position among those forwarded to it.
    pub fn add_successor_operand(
        &self,
        ctx: &mut Context,
        succ_idx: usize,
        operand: Value,
    ) -> (idx: usize)
        requires
            old(ctx).wf(),
            old(ctx)@.ops.contains_key(self.op),
            succ_idx < usize::MAX,
            old(ctx)@.ops[self.op].has_segment(succ_idx + 1),
            old(ctx)@.ops[self.op].segments[succ_idx + 1] < u32::MAX,
            old(ctx)@.has_value(operand),
        ensures
            final(ctx).wf(),
            final(ctx).extends(old(ctx).journal()),
            idx == old(ctx)@.ops[self.op].segments[succ_idx + 1],
            final(ctx)@ == self.forwarding_more(old(ctx)@, succ_idx as int, operand),
            final(ctx)@.ops[self.op].segment(succ_idx + 1) == old(ctx)@.ops[self.op].segment(
                succ_idx + 1,
            ) + seq![operand],
    {
        proof {
            self.add_then_remove(ctx@, succ_idx as int, operand);
            assert(ctx@.ops[self.op].segment(succ_idx + 1) + seq![operand]
                =~= ctx@.ops[self.op].segment(succ_idx + 1).push(operand));
        }
        ctx.push_to_segment(self.op, succ_idx + 1, operand)
    }

    /// Stops forwarding one of the values to a successor.
    pub fn remove_successor_operand(
        &self,
        ctx: &mut Context,
        succ_idx: usize,
        opd_idx: usize,
    ) -> (removed: Value)
        requires
            old(ctx).wf(),
            old(ctx)@.ops.contains_key(self.op),
            succ_idx < usize::MAX,
            old(ctx)@.ops[self.op].has_segment(succ_idx + 1),
            opd_idx < old(ctx)@.ops[self.op].segments[succ_idx + 1],
        ensures
            final(ctx).wf(),
            final(ctx).extends(old(ctx).journal()),
            removed == old(ctx)@.ops[self.op].segment(succ_idx + 1)[opd_idx as int],
            final(ctx)@ == self.forwarding_less(old(ctx)@, succ_idx as int, opd_idx as int),
            final(ctx)@.ops[self.op].segment(succ_idx + 1) == old(ctx)@.ops[self.op].segment(
                succ_idx + 1,
            ).take(opd_idx as int) + old(ctx)@.ops[self.op].segment(succ_idx + 1).skip(opd_idx + 1),
    {
        proof {
            self.one_less(ctx@, succ_idx as int, opd_idx as int);
        }
        ctx.remove_from_segment(self.op, succ_idx + 1, opd_idx)
    }

    /// Taking away one of the values that are forwarded to a successor leaves those before it followed
    /// by those after it, however many segments there are.
    pub proof fn one_less(self, ir: Ir, succ_idx: int, opd_idx: int)
        requires
            ir.ops.contains_key(self.op),
            0 <= succ_idx,
            ir.ops[self.op].has_segment(succ_idx + 1),
            0 <= opd_idx < ir.ops[self.op].segments[succ_idx + 1],
        ensures
            self.forwarding_less(ir, succ_idx, opd_idx).ops[self.op].segment(succ_idx + 1)
                == ir.ops[self.op].segment(succ_idx + 1).take(opd_idx) + ir.ops[self.op].segment(
                succ_idx + 1,
            ).skip(opd_idx + 1),
    {
        let view = ir.ops[self.op];
        let seg = succ_idx + 1;
        view.segment_in_range(seg);
        let now = self.forwarding_less(ir, succ_idx, opd_idx).ops[self.op];
        assert(now.segments.take(seg) =~= view.segments.take(seg));
        assert(now.segment(seg) =~= view.segment(seg).take(opd_idx) + view.segment(seg).skip(
            opd_idx + 1,
        ));
    }

    /// Taking away the value that was just forwarded undoes forwarding it.
    pub proof fn add_then_remove(self, ir: Ir, succ_idx: int, operand: Value)
        requires
            ir.ops.contains_key(self.op),
            0 <= succ_idx,
            ir.ops[self.op].has_segment(succ_idx + 1),
            ir.ops[self.op].segments[succ_idx + 1] < u32::MAX,
        ensures
            ({
                let idx = ir.ops[self.op].segments[succ_idx + 1] as int;
                let more = self.forwarding_more(ir, succ_idx, operand);
                &&& more.ops[self.op].segment(succ_idx + 1) == ir.ops[self.op].segment(
                    succ_idx + 1,
                ).push(operand)
                &&& self.forwarding_less(more, succ_idx, idx) == ir
            }),
    {
        let view = ir.ops[self.op];
        let seg = succ_idx + 1;
        let idx = view.segments[seg] as int;
        view.segment_in_range(seg);
        let at = view.segment_start(seg + 1);
        let more = self.forwarding_more(ir, succ_idx, operand);
        let back = self.forwarding_less(more, succ_idx, idx);
        let now = more.ops[self.op];
        assert(now.segments.take(seg) =~= view.segments.take(seg));
        assert(now.segment_start(seg) == view.segment_start(seg));
        assert(now.segment(seg) =~= view.segment(seg).push(operand));
        assert(view.operands.insert(at, operand).remove(at) =~= view.operands);
        assert(now.segments.update(seg, view.segments[seg]) =~= view.segments);
        assert(back.ops =~= ir.ops);
    }

    /// A new `CondBrOp` forwards to its successors what it was given for them.
    pub proof fn forwards_what_it_was_given(
        condition: Value,
        true_dest: BlockId,
        true_dest_opds: Seq<Value>,
        false_dest: BlockId,
        false_dest_opds: Seq<Value>,
    )
        requires
            true_dest_opds.len() <= u32::MAX,
            false_dest_opds.len() <= u32::MAX,
        ensures
            ({
                let view = CondBrOp::view(
                    condition,
                    true_dest,
                    true_dest_opds,
                    false_dest,
                    false_dest_opds,
                );
                &&& view.has_segment(1)
                &&& view.segment(1) == true_dest_opds
                &&& view.has_segment(2)
                &&& view.segment(2) == false_dest_opds
            }),
    {
        let view = CondBrOp::view(
            condition,
            true_dest,
            true_dest_opds,
            false_dest,
            false_dest_opds,
        );
        let groups = seq![seq![condition], true_dest_opds, false_dest_opds];
        Segments::flatten_three(seq![condition], true_dest_opds, false_dest_opds);
        assert(view.segments =~= Segments::sizes(groups));
        view.segment_is_group(groups, 1);
        view.segment_is_group(groups, 2);
    }
}

} // verus!
