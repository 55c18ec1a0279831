//! Which operations and which types are converted, and to what.

use crate::cf::to_llvm::CFToLLVM;
use crate::ir::model::{BlockView, Ir};
use crate::ir::types::{BlockId, OpId, OpKind, Signedness, Type};
use vstd::prelude::*;

verus! {

impl CFToLLVM {
    /// All operations of control flow are converted but `yield`, which goes with the operation that
    /// it ends. None of the dialect that is converted to is, and one of another dialect is if that
    /// dialect converts it.
    pub proof fn which_ops_convert(kind: OpKind)
        ensures
            CFToLLVM::converts(kind) <==> (kind is CfBr || kind is CfCondBr || kind is CfFor
                || kind is CfNDFor || kind is CfExecuteRegion || kind is CfIf || (
            kind matches OpKind::Other(other) && other.converts_to_llvm)),
            CFToLLVM::is_control_flow(kind) <==> CFToLLVM::converts(kind) && !(kind is Other),
    {
    }

    /// What can be lowered is to be converted.
    pub proof fn lowerable_converts(ir: Ir, op: OpId)
        requires
            CFToLLVM::lowerable(ir, op),
        ensures
            CFToLLVM::converts(ir.ops[op].kind),
            !(ir.ops[op].kind is Other),
    {
    }

    /// An index becomes a signless 64-bit integer. Integers stay what they are, and types of other
    /// dialects are converted if those convert them.
    pub proof fn which_types_convert(ty: Type)
        ensures
            CFToLLVM::converts_type(ty) <==> ty is Index || (ty matches Type::Other(other)
                && other.converts_to_llvm),
            ty is Index ==> ty.converted() == (Type::Integer {
                width: 64,
                signedness: Signedness::Signless,
            }),
            !(ty is Index) ==> ty.converted() == ty,
            ty.converted().converted() == ty.converted(),
            !(ty is Other) ==> !CFToLLVM::converts_type(ty.converted()),
    {
    }

    /// The signless integer type of a width is that, and of no other width.
    pub proof fn signless_is_signless(width: u32)
        ensures
            Type::signless(width) == (Type::Integer { width, signedness: Signedness::Signless }),
    {
    }
}

impl Ir {
    /// Converting the type of an argument of a block makes a signless 64-bit integer of it, if it is
    /// an index, and leaves its name. Nothing else changes.
    pub proof fn argument_converted_is(self, block: BlockId, idx: int)
        requires
            self.blocks.contains_key(block),
            0 <= idx < self.blocks[block].args.len(),
        ensures
            ({
                let after = self.argument_converted(block, idx);
                let before = self.blocks[block].args;
                let now = after.blocks[block].args;
                &&& now.len() == before.len()
                &&& forall|i: int| 0 <= i < now.len() && i != idx ==> #[trigger] now[i] == before[i]
                &&& now[idx].name == before[idx].name
                &&& before[idx].ty is Index ==> now[idx].ty == (Type::Integer {
                    width: 64,
                    signedness: Signedness::Signless,
                })
                &&& !(before[idx].ty is Index) ==> now[idx].ty == before[idx].ty
                &&& after == (Ir {
                    blocks: self.blocks.insert(
                        block,
                        BlockView { args: now, ..self.blocks[block] },
                    ),
                    ..self
                })
            }),
    {
        let after = self.argument_converted(block, idx);
        assert(after.blocks =~= self.blocks.insert(
            block,
            BlockView { args: after.blocks[block].args, ..self.blocks[block] },
        ));
    }
}

impl Ir {
    /// Does region `i` of the operation, which is in a block elsewhere, have blocks, and is the last
    /// operation of the last one a `yield` that has neither results nor regions?
    pub open spec fn leaves_by_yield(self, op: OpId, i: int) -> bool {
        let region = self.ops[op].regions[i];
        let blocks = self.regions[region].blocks;
        let ops = self.blocks[blocks[blocks.len() - 1]].ops;
        let y = self.ops[ops[ops.len() - 1]];
        &&& blocks.len() > 0
        &&& ops.len() > 0
        &&& y.kind is CfYield
        &&& y.results.len() == 0
        &&& y.regions.len() == 0
        &&& self.blocks[self.ops[op].parent->0].parent != region
    }
}

impl CFToLLVM {
    /// An operation of control flow can be lowered if and only if it is in a block and has what it is
    /// lowered from. A branch has a target and no results; a conditional branch has a condition, two
    /// targets and values for them; a loop has its bounds, as many results as initial values, and a
    /// body that takes an index; a loop over several dimensions has no results and a bound and a step
    /// for at least one dimension; a choice has a condition and one region or two. All regions end
    /// with a `yield`.
    pub proof fn which_can_be_lowered(ir: Ir, op: OpId)
        requires
            ir.ops.contains_key(op),
        ensures
            ({
                let view = ir.ops[op];
                let bare = view.results.len() == 0 && view.regions.len() == 0;
                let one = view.regions.len() == 1 && ir.leaves_by_yield(op, 0);
                CFToLLVM::lowerable(ir, op) <==> view.parent is Some && match view.kind {
                    OpKind::CfBr => bare && view.successors.len() >= 1,
                    OpKind::CfCondBr => bare && view.successors.len() >= 2 && view.operands.len() >= 1
                        && view.has_segment(2),
                    OpKind::CfFor => one && view.has_segment(1) && view.segments[0] >= 3
                        && view.segments[1] < u32::MAX && view.segments[1] == view.results.len()
                        && ir.blocks[ir.regions[view.regions[0]].blocks[0]].args.len() >= 1,
                    OpKind::CfNDFor => one && view.has_segment(2) && view.results.len() == 0
                        && view.segments[0] >= 1 && view.segments[1] >= 1 && view.segments[2] >= 1,
                    OpKind::CfExecuteRegion => one,
                    OpKind::CfIf => view.operands.len() >= 1 && (one || (view.regions.len() == 2
                        && ir.leaves_by_yield(op, 0) && ir.leaves_by_yield(op, 1))),
                    _ => false,
                }
            }),
    {
        let view = ir.ops[op];
        assert forall|i: int| 0 <= i < view.regions.len() implies #[trigger] ir.leaves_by_yield(op, i)
            == ir.yields_outward(op, i) by {}
        if view.kind is CfNDFor && view.has_segment(2) {
            view.earlier_segment(0, 2);
            view.earlier_segment(1, 2);
            view.segment_in_range(0);
            view.segment_in_range(1);
            view.segment_in_range(2);
        }
        if view.regions.len() > 0 {
            assert(ir.leaves_by_yield(op, 0) == ir.yields_outward(op, 0));
        }
        if view.regions.len() > 1 {
            assert(ir.leaves_by_yield(op, 1) == ir.yields_outward(op, 1));
        }
    }
}

} // verus!
