//! The operations of the LLVM dialect that control flow is lowered to.

use crate::ir::context::Context;
use crate::ir::model::OpView;
use crate::ir::segments::Segments;
use crate::ir::types::{
    BlockId, ICmpPredicate, OpId, OpKind, OverflowFlags, Signedness, Type, Value,
};
use vstd::prelude::*;

verus! {

impl OpView {
    /// A branch to `dest`.
    pub open spec fn llvm_br(dest: BlockId, dest_opds: Seq<Value>) -> OpView {
        OpView::simple(OpKind::LlvmBr, Seq::empty(), dest_opds, seq![dest], Seq::empty())
    }

    /// A branch to `true_dest` if `condition` holds, else to `false_dest`.
    pub open spec fn llvm_cond_br(
        condition: Value,
        true_dest: BlockId,
        true_dest_opds: Seq<Value>,
        false_dest: BlockId,
        false_dest_opds: Seq<Value>,
    ) -> OpView {
        OpView::simple(
            OpKind::LlvmCondBr,
            Seq::empty(),
            seq![condition] + true_dest_opds + false_dest_opds,
            seq![true_dest, false_dest],
            seq![1u32, true_dest_opds.len() as u32, false_dest_opds.len() as u32],
        )
    }

    /// A comparison of two integers.
    pub open spec fn llvm_compare(pred: ICmpPredicate, lhs: Value, rhs: Value) -> OpView {
        OpView::simple(
            OpKind::LlvmICmp(pred),
            seq![Type::signless(1)],
            seq![lhs, rhs],
            Seq::empty(),
            Seq::empty(),
        )
    }

    /// The sum of two integers of type `ty`; it may overflow.
    pub open spec fn llvm_add(lhs: Value, rhs: Value, ty: Type) -> OpView {
        OpView::simple(
            OpKind::LlvmAdd(OverflowFlags { nsw: false, nuw: false }),
            seq![ty],
            seq![lhs, rhs],
            Seq::empty(),
            Seq::empty(),
        )
    }
}

/// A branch.
pub struct LlvmBrOp;

impl LlvmBrOp {
    /// Creates a branch to `dest`.
    pub fn new(ctx: &mut Context, dest: BlockId, dest_opds: Vec<Value>) -> (op: OpId)
        requires
            old(ctx).wf(),
            old(ctx)@.has_values(dest_opds@),
            old(ctx)@.blocks.contains_key(dest),
        ensures
            final(ctx).wf(),
            final(ctx).extends(old(ctx).journal()),
            op == old(ctx)@.op_at(0),
            final(ctx)@ == old(ctx)@.with_op(OpView::llvm_br(dest, dest_opds@)),
    {
        let ghost before = ctx@;
        let ghost opds = dest_opds@;
        let successors: Vec<BlockId> = vec![dest];
        assert(successors@ =~= seq![dest]);
        let op: OpId = ctx.create_op(
            OpKind::LlvmBr,
            Vec::new(),
            dest_opds,
            successors,
            0,
            Vec::new(),
        );
        proof {
            before.created_simple_op(
                OpKind::LlvmBr,
                Seq::empty(),
                opds,
                seq![dest],
                Seq::empty(),
            );
        }
        op
    }
}

/// A conditional branch.
pub struct LlvmCondBrOp;

impl LlvmCondBrOp {
    /// Creates a branch to `true_dest` if `condition` holds, else to `false_dest`.
    pub fn new(
        ctx: &mut Context,
        condition: Value,
        true_dest: BlockId,
        true_dest_opds: Vec<Value>,
        false_dest: BlockId,
        false_dest_opds: Vec<Value>,
    ) -> (op: OpId)
        requires
            old(ctx).wf(),
            old(ctx)@.has_value(condition),
            old(ctx)@.has_values(true_dest_opds@),
            old(ctx)@.has_values(false_dest_opds@),
            old(ctx)@.blocks.contains_key(true_dest),
            old(ctx)@.blocks.contains_key(false_dest),
            true_dest_opds@.len() <= u32::MAX,
            false_dest_opds@.len() <= u32::MAX,
        ensures
            final(ctx).wf(),
            final(ctx).extends(old(ctx).journal()),
            op == old(ctx)@.op_at(0),
            final(ctx)@ == old(ctx)@.with_op(
                OpView::llvm_cond_br(
                    condition,
                    true_dest,
                    true_dest_opds@,
                    false_dest,
                    false_dest_opds@,
                ),
            ),
    {
        let ghost before = ctx@;
        let ghost t = true_dest_opds@;
        let ghost f = false_dest_opds@;
        let (operands, segments) = Segments::of_branch(
            condition,
            true_dest_opds,
            false_dest_opds,
        );
        let successors: Vec<BlockId> = vec![true_dest, false_dest];
        assert(successors@ =~= seq![true_dest, false_dest]);
        let op: OpId = ctx.create_op(
            OpKind::LlvmCondBr,
            Vec::new(),
            operands,
            successors,
            0,
            segments,
        );
        proof {
            before.created_simple_op(
                OpKind::LlvmCondBr,
                Seq::empty(),
                operands@,
                seq![true_dest, false_dest],
                segments@,
            );
        }
        op
    }
}

/// A comparison of integers.
pub struct ICmpOp;

impl ICmpOp {
    /// Creates a comparison of two integers.
    pub fn new(ctx: &mut Context, pred: ICmpPredicate, lhs: Value, rhs: Value) -> (op: OpId)
        requires
            old(ctx).wf(),
            old(ctx)@.has_value(lhs),
            old(ctx)@.has_value(rhs),
        ensures
            final(ctx).wf(),
            final(ctx).extends(old(ctx).journal()),
            op == old(ctx)@.op_at(0),
            final(ctx)@ == old(ctx)@.with_op(OpView::llvm_compare(pred, lhs, rhs)),
            final(ctx)@.ops[op].kind == OpKind::LlvmICmp(pred),
            final(ctx)@.ops[op].operands == seq![lhs, rhs],
            final(ctx)@.ops[op].results.len() == 1,
            final(ctx)@.ops[op].results[0].ty == (Type::Integer {
                width: 1,
                signedness: Signedness::Signless,
            }),
    {
        let ghost before = ctx@;
        let types: Vec<Type> = vec![Type::i1()];
        let operands: Vec<Value> = vec![lhs, rhs];
        assert(types@ =~= seq![Type::signless(1)]);
        assert(operands@ =~= seq![lhs, rhs]);
        let op: OpId = ctx.create_op(
            OpKind::LlvmICmp(pred),
            types,
            operands,
            Vec::new(),
            0,
            Vec::new(),
        );
        proof {
            before.created_simple_op(
                OpKind::LlvmICmp(pred),
                seq![Type::signless(1)],
                seq![lhs, rhs],
                Seq::empty(),
                Seq::empty(),
            );
        }
        op
    }
}

/// An addition of integers.
pub struct AddOp;

impl AddOp {
    /// Creates the sum of two integers; it may overflow.
    pub fn new(ctx: &mut Context, lhs: Value, rhs: Value) -> (op: OpId)
        requires
            old(ctx).wf(),
            old(ctx)@.has_value(lhs),
            old(ctx)@.has_value(rhs),
        ensures
            final(ctx).wf(),
            final(ctx).extends(old(ctx).journal()),
            op == old(ctx)@.op_at(0),
            final(ctx)@ == old(ctx)@.with_op(
                OpView::llvm_add(lhs, rhs, old(ctx)@.def(lhs).ty),
            ),
            final(ctx)@.ops[op].kind == OpKind::LlvmAdd(OverflowFlags { nsw: false, nuw: false }),
            final(ctx)@.ops[op].operands == seq![lhs, rhs],
            final(ctx)@.ops[op].results.len() == 1,
            final(ctx)@.ops[op].results[0].ty == old(ctx)@.def(lhs).ty,
    {
        let ghost before = ctx@;
        let ty: Type = ctx.type_of(lhs);
        let types: Vec<Type> = vec![ty];
        let operands: Vec<Value> = vec![lhs, rhs];
        assert(types@ =~= seq![ty]);
        assert(operands@ =~= seq![lhs, rhs]);
        let kind: OpKind = OpKind::LlvmAdd(OverflowFlags { nsw: false, nuw: false });
        let op: OpId = ctx.create_op(kind, types, operands, Vec::new(), 0, Vec::new());
        proof {
            before.created_simple_op(
                kind,
                seq![ty],
                seq![lhs, rhs],
                Seq::empty(),
                Seq::empty(),
            );
        }
        op
    }
}

} // verus!
