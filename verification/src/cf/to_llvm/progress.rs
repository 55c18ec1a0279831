//! What is in order can be lowered, and lowering leaves less to lower.

use crate::cf::op_interfaces::YieldingRegionsVerifyErr;
use crate::cf::ops::{ForOp, NDForOp, YieldOp};
use crate::cf::to_llvm::CFToLLVM;
use crate::cf::verify::VerifyErr;
use crate::ir::model::Ir;
use crate::ir::types::{BlockId, OpId, OpKind};
use vstd::prelude::*;

verus! {

impl CFToLLVM {
    /// Is this the kind of an operation of control flow that is converted?
    pub open spec fn is_control_flow(kind: OpKind) -> bool {
        match kind {
            OpKind::CfBr | OpKind::CfCondBr | OpKind::CfFor | OpKind::CfNDFor
            | OpKind::CfExecuteRegion | OpKind::CfIf => true,
            _ => false,
        }
    }

    /// Is the operation laid out as its constructors lay it out, as far as its check does not
    /// look at that? Branches have no regions, and the arguments of the header of a loop can be
    /// counted.
    pub open spec fn laid_out(ir: Ir, op: OpId) -> bool {
        let view = ir.ops[op];
        match view.kind {
            OpKind::CfBr | OpKind::CfCondBr => view.regions.len() == 0,
            OpKind::CfFor => view.segments[1] < u32::MAX,
            _ => true,
        }
    }

    /// Is the operation outside of its own regions?
    pub open spec fn outside_itself(ir: Ir, op: OpId) -> bool {
        !ir.ops[op].regions.contains(ir.blocks[ir.holder(op)].parent)
    }

    /// Are the operations that end the regions in order, and without regions of their own?
    pub open spec fn ends_checked(ir: Ir, op: OpId) -> bool {
        forall|i: int|
            #[trigger] ir.has_exit_op(op, i) ==> VerifyErr::finding(ir, ir.exit_op(op, i)) is None
                && ir.ops[ir.exit_op(op, i)].regions.len() == 0
    }

    /// A region in which nothing is wrong ends with a `yield`, which has no results if it is in
    /// order.
    proof fn region_ends(ir: Ir, op: OpId, i: int)
        requires
            ir.wf(),
            ir.ops.contains_key(op),
            0 <= i < ir.ops[op].regions.len(),
            VerifyErr::terminated(ir, op),
            VerifyErr::yielding(ir, op) is None,
            CFToLLVM::ends_checked(ir, op),
        ensures
            ir.has_exit_op(op, i),
            ir.ops[ir.exit_op(op, i)].kind is CfYield,
            ir.ops[ir.exit_op(op, i)].regions.len() == 0,
            ir.ops[ir.exit_op(op, i)].results.len() == 0,
    {
        CFToLLVM::sound_region(ir, op, 0, i);
        let blocks = ir.regions[ir.ops[op].regions[i]].blocks;
        let last = ir.regions[ir.ops[op].regions[i]].blocks[blocks.len() - 1];
        assert(ir.terminator(last) is Some);
        assert(last == ir.exit(op, i));
        assert(ir.has_exit_op(op, i));
    }

    /// If nothing is wrong with any region, nothing is wrong with region `i`.
    proof fn sound_region(ir: Ir, op: OpId, from: int, i: int)
        requires
            0 <= from <= i < ir.ops[op].regions.len(),
            YieldingRegionsVerifyErr::fault_from::<YieldOp>(ir, op, from) is None,
        ensures
            YieldingRegionsVerifyErr::fault::<YieldOp>(ir, ir.ops[op].regions[i]) is None,
        decreases i - from,
    {
        if from < i {
            CFToLLVM::sound_region(ir, op, from + 1, i);
        }
    }

    /// An operation of control flow that is in a block, and with which the check finds nothing
    /// wrong, can be lowered.
    pub proof fn checked_can_be_lowered(ir: Ir, op: OpId)
        requires
            ir.wf(),
            ir.placed(op),
            CFToLLVM::is_control_flow(ir.ops[op].kind),
            VerifyErr::checkable(ir, op),
            VerifyErr::finding(ir, op) is None,
            CFToLLVM::laid_out(ir, op),
            CFToLLVM::outside_itself(ir, op),
            CFToLLVM::ends_checked(ir, op),
        ensures
            CFToLLVM::lowerable(ir, op),
    {
        let view = ir.ops[op];
        if VerifyErr::segments_add_up(ir, op) {
            view.all_segments_there();
        }
        if view.regions.len() > 0 {
            assert(view.regions.contains(view.regions[0]));
            CFToLLVM::region_ends(ir, op, 0);
        }
        if view.kind is CfFor {
            let this = ForOp { op };
            view.segment_in_range(1);
            assert(this.counts_match(ir) && this.types_match(ir));
            assert(this.lowerable(ir));
        }
        if view.kind is CfNDFor {
            view.segment_in_range(0);
            view.segment_in_range(1);
            view.segment_in_range(2);
        }
        if view.kind is CfIf && view.regions.len() > 1 {
            assert(view.regions.contains(view.regions[1]));
            CFToLLVM::region_ends(ir, op, 1);
        }
    }

    /// The regions of an operation with which the check finds nothing wrong end at the end of
    /// their last blocks alone.
    pub proof fn checked_ends_last(ir: Ir, op: OpId)
        requires
            ir.wf(),
            ir.ops.contains_key(op),
            CFToLLVM::is_control_flow(ir.ops[op].kind),
            VerifyErr::finding(ir, op) is None,
            CFToLLVM::laid_out(ir, op),
        ensures
            ir.ends_last(op),
    {
        assert forall|i: int, b: BlockId|
            #![trigger ir.has_body(op, i), ir.blocks[b]]
            ir.has_body(op, i) && ir.blocks.contains_key(b) && ir.blocks[b].parent
                == ir.ops[op].regions[i] && b != ir.exit(op, i) && ir.blocks[b].ops.len()
                > 0 implies !ir.ops[ir.blocks[b].ops.last()].kind.closes() by {
            let region = ir.ops[op].regions[i];
            let blocks = ir.regions[region].blocks;
            assert(blocks.contains(b)) by {
                reveal(Ir::wf);
            }
            let j = blocks.index_of(b);
            assert(blocks[j] == b);
            CFToLLVM::sound_region(ir, op, 0, i);
            assert(ir.terminator(ir.regions[ir.ops[op].regions[i]].blocks[j]) is Some);
            assert(!YieldingRegionsVerifyErr::strays(ir, region, j));
        }
    }

    /// The operations that are to be converted.
    pub open spec fn to_convert(ir: Ir) -> Set<OpId> {
        Set::new(|o: OpId| ir.ops.contains_key(o) && CFToLLVM::converts(ir.ops[o].kind))
    }

    /// The loops over one dimension each that the lowering of a loop over several dimensions
    /// leaves to be converted.
    pub open spec fn left_to_convert(ir: Ir, op: OpId) -> Set<OpId> {
        if ir.ops[op].kind is CfNDFor {
            Set::new(
                |o: OpId|
                    exists|i: int|
                        0 <= i < (NDForOp { op }).dims(ir) && o == #[trigger] (NDForOp {
                            op,
                        }).loop_op(ir, i),
            )
        } else {
            Set::empty()
        }
    }

    /// Lowering an operation leaves one operation less to be converted. Only the lowering of a
    /// loop over several dimensions adds some: a loop for each of the dimensions.
    pub proof fn lowering_leaves_less(ir: Ir, op: OpId)
        requires
            ir.wf(),
            CFToLLVM::lowerable(ir, op),
            CFToLLVM::lowered(ir, op).wf(),
        ensures
            !CFToLLVM::lowered(ir, op).ops.contains_key(op),
            CFToLLVM::to_convert(CFToLLVM::lowered(ir, op)) == CFToLLVM::to_convert(ir).remove(
                op,
            ).union(CFToLLVM::left_to_convert(ir, op)),
    {
        let after = CFToLLVM::lowered(ir, op);
        assert(forall|o: OpId| ir.ops.contains_key(o) ==> o < ir.next_op) by {
            reveal(Ir::wf);
        }
        assert(after.next_op <= usize::MAX) by {
            reveal(Ir::wf);
        }
        let view = ir.ops[op];
        let goal = CFToLLVM::to_convert(ir).remove(op).union(CFToLLVM::left_to_convert(ir, op));
        assert forall|o: OpId| #[trigger] CFToLLVM::to_convert(after).contains(o) == goal.contains(
            o,
        ) by {
            if view.kind is CfNDFor {
                let this = NDForOp { op };
                let n = this.dims(ir);
                if ir.next_op <= o <= ir.next_op + 2 * n {
                    let i = (o - ir.next_op) / 2;
                    if (o - ir.next_op) % 2 == 0 && i < n {
                        assert(o == this.loop_op(ir, i));
                    }
                }
            }
        }
        assert(CFToLLVM::to_convert(after) =~= goal);
    }
}

} // verus!
