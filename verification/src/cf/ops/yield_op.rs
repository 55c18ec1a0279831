//! The operation that ends a structured region.

use crate::cf::op_interfaces::YieldingOp;
use crate::ir::context::Context;
use crate::ir::model::{Def, Ir, OpView};
use crate::ir::rewriter::IRRewriter;
use crate::ir::types::{BlockId, OpId, OpInsertionPoint, OpKind, RegionId, Type, Value};
use vstd::prelude::*;

verus! {

/// Why a [YieldOp] is not in order.
#[derive(Debug, Clone, Copy, PartialEq, Eq, Structural)]
pub enum YieldOpVerifyErr {
    OperandTypeMismatch,
    MissingParentOp,
}

impl YieldOpVerifyErr {
    /// What is wrong, in words.
    pub open spec fn text(self) -> Seq<char> {
        match self {
            YieldOpVerifyErr::OperandTypeMismatch => "YieldOp operand types do not match parent operation result types"@,
            YieldOpVerifyErr::MissingParentOp => "YieldOp must have a parent operation to verify against"@,
        }
    }

    /// Says what is wrong.
    pub fn message(&self) -> (message: &'static str)
        ensures
            message@ == self.text(),
    {
        match self {
            YieldOpVerifyErr::OperandTypeMismatch => "YieldOp operand types do not match parent operation result types",
            YieldOpVerifyErr::MissingParentOp => "YieldOp must have a parent operation to verify against",
        }
    }
}

/// Loop yield and termination operation.
/// Operands must match the results of the parent operation.
///
/// ## Operand(s)
/// | operand | description |
/// |-----|-------|
/// | `results` | variadic of any type |
#[derive(Debug, Clone, Copy, PartialEq, Eq, Structural, Hash)]
pub struct YieldOp {
    pub op: OpId,
}

impl YieldingOp for YieldOp {
    open spec fn is_kind(kind: OpKind) -> bool {
        kind is CfYield
    }

    open spec fn op_id(&self) -> OpId {
        self.op
    }

    fn from_operation(ctx: &Context, op: OpId) -> (this: Option<Self>) {
        match ctx.kind(op) {
            OpKind::CfYield => Some(YieldOp { op }),
            _ => None,
        }
    }

    fn get_operation(&self) -> (op: OpId) {
        self.op
    }
}

impl YieldOp {
    /// A `YieldOp` that is in no block.
    pub open spec fn view(results: Seq<Value>) -> OpView {
        OpView::simple(OpKind::CfYield, Seq::empty(), results, Seq::empty(), Seq::empty())
    }

    /// Creates a new `YieldOp` with the specified operands.
    pub fn new(ctx: &mut Context, results: Vec<Value>) -> (this: Self)
        requires
            old(ctx).wf(),
            old(ctx)@.has_values(results@),
        ensures
            final(ctx).wf(),
            final(ctx).extends(old(ctx).journal()),
            this.op == old(ctx)@.op_at(0),
            final(ctx)@ == old(ctx)@.with_op(YieldOp::view(results@)),
    {
        proof {
            ctx@.created_simple_op(
                OpKind::CfYield,
                Seq::empty(),
                results@,
                Seq::empty(),
                Seq::empty(),
            );
        }
        let op: OpId = ctx.create_op(
            OpKind::CfYield,
            Vec::new(),
            results,
            Vec::new(),
            0,
            Vec::new(),
        );
        YieldOp { op }
    }

    /// The representation with a `YieldOp` at the end of the last block of a region.
    pub open spec fn yielded(ir: Ir, region: RegionId, results: Seq<Value>) -> Ir {
        ir.appended(YieldOp::view(results), ir.regions[region].blocks.last())
    }

    /// Is `done` what `ir` becomes by a `yield` of the given values behind all operations of the
    /// last block of a region?
    pub open spec fn closes(ir: Ir, done: Ir, region: RegionId, results: Seq<Value>) -> bool {
        let blocks = ir.regions[region].blocks;
        let exit = blocks[blocks.len() - 1];
        let ops = done.blocks[exit].ops;
        let y = ops[ops.len() - 1];
        &&& ops.len() == ir.blocks[exit].ops.len() + 1
        &&& ops.drop_last() == ir.blocks[exit].ops
        &&& !ir.ops.contains_key(y)
        &&& done.ops[y].kind is CfYield
        &&& done.ops[y].operands == results
        &&& done.ops[y].results.len() == 0
        &&& done.ops[y].parent == Some(exit)
        &&& done.regions == ir.regions
        &&& done.ops == ir.ops.insert(y, done.ops[y])
        &&& done.blocks == ir.blocks.insert(exit, done.blocks[exit])
    }

    /// Puts a new `YieldOp` at the end of the last block of a region.
    pub fn append_to(
        ctx: &mut Context,
        inserter: &mut IRRewriter,
        region: RegionId,
        results: Vec<Value>,
    )
        requires
            old(ctx).wf(),
            old(ctx)@.regions.contains_key(region),
            old(ctx)@.regions[region].blocks.len() > 0,
            old(ctx)@.has_values(results@),
        ensures
            final(ctx).wf(),
            final(ctx).extends(old(ctx).journal()),
            final(ctx)@ == YieldOp::yielded(old(ctx)@, region, results@),
            YieldOp::closes(old(ctx)@, final(ctx)@, region, results@),
            final(ctx)@.next_op <= usize::MAX,
    {
        let ghost ir = ctx@;
        let blocks = ctx.blocks(region);
        let tail: BlockId = blocks[blocks.len() - 1];
        proof {
            ir.block_position_unique(region, blocks@.len() - 1);
        }
        let ghost operands = results@;
        let yield_op = YieldOp::new(ctx, results);
        proof {
            assert(ir.next_op < usize::MAX) by {
                reveal(Ir::wf);
            }
            ir.insert_at_end(YieldOp::view(operands), tail);
        }
        inserter.set_insertion_point(OpInsertionPoint::AtBlockEnd(tail));
        inserter.insert_op(ctx, yield_op.op);
        proof {
            YieldOp::appended_last(ir, region, operands);
            assert(ctx@.blocks[tail].ops.drop_last() =~= ir.blocks[tail].ops);
            assert(!ir.ops.contains_key(yield_op.op)) by {
                reveal(Ir::wf);
            }
        }
    }

    /// The operation whose region holds the `YieldOp`.
    pub open spec fn parent(self, ir: Ir) -> Option<OpId> {
        match ir.ops[self.op].parent {
            Some(block) => Some(ir.regions[ir.blocks[block].parent].parent),
            None => None,
        }
    }

    /// What the check finds.
    pub open spec fn verified(self, ir: Ir) -> Result<(), YieldOpVerifyErr> {
        match self.parent(ir) {
            None => Err(YieldOpVerifyErr::MissingParentOp),
            Some(parent) => if ir.ops[parent].results.map_values(|d: Def| d.ty) == ir.types_of(
                ir.ops[self.op].operands,
            ) {
                Ok(())
            } else {
                Err(YieldOpVerifyErr::OperandTypeMismatch)
            },
        }
    }

    /// Checks that the operands have the types of the results of the parent operation.
    pub fn verify(&self, ctx: &Context) -> (result: Result<(), YieldOpVerifyErr>)
        requires
            ctx.wf(),
            ctx@.ops.contains_key(self.op),
        ensures
            result == self.verified(ctx@),
    {
        let ghost ir = ctx@;
        proof {
            reveal(Ir::wf);
        }
        let block = match ctx.parent_block(self.op) {
            Some(block) => block,
            None => {
                return Err(YieldOpVerifyErr::MissingParentOp);
            },
        };
        let parent: OpId = ctx.parent_op(ctx.parent_region(block));
        let expected_types = ctx.result_types(parent);
        assert forall|i: int| 0 <= i < ir.ops[self.op].operands.len() implies ir.has_value(
            #[trigger] ir.ops[self.op].operands[i],
        ) by {}
        let actual_types = ctx.types_of(&ctx.operands(self.op));
        if same_types(&expected_types, &actual_types) {
            Ok(())
        } else {
            Err(YieldOpVerifyErr::OperandTypeMismatch)
        }
    }
}

/// Are the types the same, in the same order?
pub fn same_types(xs: &Vec<Type>, ys: &Vec<Type>) -> (b: bool)
    ensures
        b == (xs@ == ys@),
{
    if xs.len() != ys.len() {
        return false;
    }
    for i in 0..xs.len()
        invariant
            xs@.len() == ys@.len(),
            forall|k: int| 0 <= k < i ==> xs@[k] == ys@[k],
    {
        if xs[i] != ys[i] {
            return false;
        }
    }
    assert(xs@ =~= ys@);
    true
}

} // verus!
