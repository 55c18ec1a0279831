//! Conditional branches decide on a signless 1-bit integer, before a lowering and after it.

use crate::cf::ops::{BrOp, CondBrOp, ExecuteRegionOp, ForOp, IfOp, NDForOp};
use crate::cf::to_llvm::CFToLLVM;
use crate::cf::verify::VerifyErr;
use crate::ir::model::{Ir, OpView};
use crate::ir::types::{BlockId, OpId, OpKind, Signedness, Type, Value};
use vstd::prelude::*;

verus! {

impl Ir {
    /// Is the value a signless 1-bit integer?
    pub open spec fn is_bit(self, v: Value) -> bool {
        self.def(v).ty == (Type::Integer { width: 1, signedness: Signedness::Signless })
    }

    /// Is the condition of an operation that has one, a conditional branch of either dialect or a
    /// choice between regions, a signless 1-bit integer?
    pub open spec fn decides_on_bit(self, o: OpId) -> bool {
        let view = self.ops[o];
        view.kind is CfCondBr || view.kind is LlvmCondBr || view.kind is CfIf ==> {
            &&& view.operands.len() > 0
            &&& self.is_bit(view.operands[0])
        }
    }

    /// Are all conditions signless 1-bit integers?
    pub open spec fn all_decide_on_bits(self) -> bool {
        forall|o: OpId| #[trigger] self.ops.contains_key(o) ==> self.decides_on_bit(o)
    }

    /// A condition that is replaced by a value of the same type is still a signless 1-bit integer.
    proof fn still_decides_on_bit(self, after: Ir, o: OpId)
        requires
            self.decides_on_bit(o),
            after.ops[o].kind == self.ops[o].kind,
            after.ops[o].operands.len() == self.ops[o].operands.len(),
            self.ops[o].operands.len() > 0 ==> after.def(after.ops[o].operands[0]).ty.converted()
                == self.def(self.ops[o].operands[0]).ty.converted(),
        ensures
            after.decides_on_bit(o),
    {
    }

    /// Swapping a branch for one that decides on the same condition, if on any, keeps the
    /// conditions.
    proof fn swapping_keeps_conditions(self, op: OpId, view: OpView)
        requires
            self.wf(),
            self.swappable(op),
            self.all_decide_on_bits(),
            view.kind is LlvmBr || view.kind is LlvmCondBr,
            view.kind is LlvmCondBr ==> self.ops[op].kind is CfCondBr && view.operands.len() > 0
                && view.operands[0] == self.ops[op].operands[0],
        ensures
            self.swapped(op, view).all_decide_on_bits(),
    {
        let after = self.swapped(op, view);
        let new = self.op_at(0);
        self.position_in_range(op);
        assert(after.next_op - 1 == self.next_op);
        assert(!self.ops.contains_key(new)) by {
            reveal(Ir::wf);
        }
        assert forall|v: Value| self.has_value(v) implies #[trigger] after.def(v) == self.def(
            v,
        ) by {}
        assert forall|o: OpId| #[trigger] after.ops.contains_key(o) implies after.decides_on_bit(
            o,
        ) by {
            if o == new {
                if view.kind is LlvmCondBr {
                    self.operands_there(op);
                    assert(self.decides_on_bit(op));
                    assert(self.has_value(self.ops[op].operands[0]));
                }
            } else {
                assert(self.ops.contains_key(o));
                self.operands_there(o);
                if self.ops[o].operands.len() > 0 {
                    assert(self.has_value(self.ops[o].operands[0]));
                }
                self.still_decides_on_bit(after, o);
            }
        }
    }

    /// A conditional branch, or a choice between regions, with which the check finds nothing wrong
    /// decides on a signless 1-bit integer.
    pub proof fn checked_decides_on_bit(self, o: OpId)
        requires
            self.ops[o].kind is CfCondBr || self.ops[o].kind is CfIf,
            self.ops[o].operands.len() > 0,
            VerifyErr::finding(self, o) is None,
        ensures
            self.decides_on_bit(o),
    {
    }

    /// Converting the type of an argument of a block keeps the conditions.
    pub proof fn retyping_keeps_conditions(self, block: BlockId, idx: int)
        requires
            self.wf(),
            self.blocks.contains_key(block),
            0 <= idx < self.blocks[block].args.len(),
            self.all_decide_on_bits(),
        ensures
            self.argument_converted(block, idx).all_decide_on_bits(),
    {
        let after = self.argument_converted(block, idx);
        self.argument_converted_keeps(block, idx);
        assert forall|o: OpId| #[trigger] after.ops.contains_key(o) implies after.decides_on_bit(
            o,
        ) by {
            self.operands_there(o);
            if self.ops[o].operands.len() > 0 {
                assert(self.has_value(self.ops[o].operands[0]));
            }
            self.still_decides_on_bit(after, o);
        }
    }
}

impl BrOp {
    /// If all conditions are signless 1-bit integers, they are after the branch is lowered.
    pub proof fn lowering_keeps_conditions(self, ir: Ir)
        requires
            ir.wf(),
            self.lowerable(ir),
            ir.all_decide_on_bits(),
        ensures
            self.lowered(ir).all_decide_on_bits(),
    {
        ir.swapping_keeps_conditions(
            self.op,
            OpView::llvm_br(ir.ops[self.op].successors[0], ir.ops[self.op].operands),
        );
    }
}

impl CondBrOp {
    /// If all conditions are signless 1-bit integers, they are after the branch is lowered.
    pub proof fn lowering_keeps_conditions(self, ir: Ir)
        requires
            ir.wf(),
            self.lowerable(ir),
            ir.ops[self.op].kind is CfCondBr,
            ir.all_decide_on_bits(),
        ensures
            self.lowered(ir).all_decide_on_bits(),
    {
        let op = ir.ops[self.op];
        ir.swapping_keeps_conditions(
            self.op,
            OpView::llvm_cond_br(
                op.operands[0],
                op.successors[0],
                op.segment(1),
                op.successors[1],
                op.segment(2),
            ),
        );
    }
}

impl ForOp {
    /// If all conditions are signless 1-bit integers, they are after the loop is lowered. The
    /// header of the loop ends with a conditional branch, and what that decides on, the result of
    /// the comparison before it, is a signless 1-bit integer.
    pub proof fn lowering_keeps_conditions(self, ir: Ir)
        requires
            ir.wf(),
            self.lowerable(ir),
            self.types_agree(ir),
            ir.all_decide_on_bits(),
            self.lowered(ir).wf(),
        ensures
            self.lowered(ir).all_decide_on_bits(),
            ({
                let after = self.lowered(ir);
                let ops = after.blocks[self.header(ir)].ops;
                let compare = after.ops[ops[ops.len() - 2]];
                let decide = after.ops[ops[ops.len() - 1]];
                &&& ops.len() >= 2
                &&& compare.kind is LlvmICmp
                &&& decide.kind is LlvmCondBr
                &&& decide.operands.len() > 0
                &&& decide.operands[0] == (Value::OpResult { op: ops[ops.len() - 2], idx: 0 })
                &&& after.def(decide.operands[0]).ty == (Type::Integer {
                    width: 1,
                    signedness: Signedness::Signless,
                })
            }),
    {
        let after = self.lowered(ir);
        assert(forall|o: OpId| ir.ops.contains_key(o) ==> o < ir.next_op) by {
            reveal(Ir::wf);
        }
        assert(after.next_op <= usize::MAX && after.next_block <= usize::MAX) by {
            reveal(Ir::wf);
        }
        assert(forall|b: BlockId| ir.blocks.contains_key(b) ==> b < ir.next_block) by {
            reveal(Ir::wf);
        }
        self.lowering_keeps_types(ir);
        assert forall|o: OpId| #[trigger] after.ops.contains_key(o) implies after.decides_on_bit(
            o,
        ) by {
            if o < ir.next_op {
                ir.operands_there(o);
                if ir.ops[o].operands.len() > 0 {
                    assert(ir.has_value(ir.ops[o].operands[0]));
                }
                ir.still_decides_on_bit(after, o);
            }
        }
    }
}

impl ExecuteRegionOp {
    /// If all conditions are signless 1-bit integers, they are after the operation is lowered.
    pub proof fn lowering_keeps_conditions(self, ir: Ir)
        requires
            ir.wf(),
            self.lowerable(ir),
            ir.all_decide_on_bits(),
            self.lowered(ir).wf(),
        ensures
            self.lowered(ir).all_decide_on_bits(),
    {
        let after = self.lowered(ir);
        let cont = self.continuation(ir);
        assert(forall|o: OpId| ir.ops.contains_key(o) ==> o < ir.next_op) by {
            reveal(Ir::wf);
        }
        assert(forall|b: BlockId| ir.blocks.contains_key(b) ==> b < ir.next_block) by {
            reveal(Ir::wf);
        }
        assert(after.next_op <= usize::MAX && after.next_block <= usize::MAX) by {
            reveal(Ir::wf);
        }
        ir.entry_exit_in_range(self.op, 0);
        assert forall|v: Value| #[trigger] ir.has_value(v) implies after.def(
            Ir::substituted(v, self.op, cont, 0),
        ).ty == ir.def(v).ty by {}
        assert forall|o: OpId| #[trigger] after.ops.contains_key(o) implies after.decides_on_bit(
            o,
        ) by {
            if o < ir.next_op {
                ir.operands_there(o);
                if ir.ops[o].operands.len() > 0 {
                    assert(ir.has_value(ir.ops[o].operands[0]));
                }
                ir.still_decides_on_bit(after, o);
            }
        }
    }
}

impl IfOp {
    /// If all conditions are signless 1-bit integers, they are after the operation is lowered.
    pub proof fn lowering_keeps_conditions(self, ir: Ir)
        requires
            ir.wf(),
            self.lowerable(ir),
            ir.ops[self.op].kind is CfIf,
            ir.all_decide_on_bits(),
            self.lowered(ir).wf(),
        ensures
            self.lowered(ir).all_decide_on_bits(),
    {
        let after = self.lowered(ir);
        let cont = self.continuation(ir);
        assert(forall|o: OpId| ir.ops.contains_key(o) ==> o < ir.next_op) by {
            reveal(Ir::wf);
        }
        assert(forall|b: BlockId| ir.blocks.contains_key(b) ==> b < ir.next_block) by {
            reveal(Ir::wf);
        }
        assert(after.next_op <= usize::MAX && after.next_block <= usize::MAX) by {
            reveal(Ir::wf);
        }
        ir.entry_exit_in_range(self.op, 0);
        if self.has_else(ir) {
            ir.entry_exit_in_range(self.op, 1);
        }
        assert forall|v: Value| #[trigger] ir.has_value(v) implies after.def(
            Ir::substituted(v, self.op, cont, 0),
        ).ty == ir.def(v).ty by {}
        assert(ir.decides_on_bit(self.op));
        ir.operands_there(self.op);
        assert(ir.has_value(self.condition(ir)));
        assert forall|o: OpId| #[trigger] after.ops.contains_key(o) implies after.decides_on_bit(
            o,
        ) by {
            if o < ir.next_op {
                ir.operands_there(o);
                if ir.ops[o].operands.len() > 0 {
                    assert(ir.has_value(ir.ops[o].operands[0]));
                }
                ir.still_decides_on_bit(after, o);
            }
        }
    }
}

impl NDForOp {
    /// If all conditions are signless 1-bit integers, they are after the loop is lowered.
    pub proof fn lowering_keeps_conditions(self, ir: Ir)
        requires
            ir.wf(),
            self.lowerable(ir),
            ir.all_decide_on_bits(),
            self.lowered(ir).wf(),
        ensures
            self.lowered(ir).all_decide_on_bits(),
    {
        let after = self.lowered(ir);
        assert(forall|o: OpId| ir.ops.contains_key(o) ==> o < ir.next_op) by {
            reveal(Ir::wf);
        }
        assert(forall|b: BlockId| ir.blocks.contains_key(b) ==> b < ir.next_block) by {
            reveal(Ir::wf);
        }
        assert(after.next_op <= usize::MAX && after.next_block <= usize::MAX) by {
            reveal(Ir::wf);
        }
        ir.entry_exit_in_range(self.op, 0);
        ir.position_in_range(self.op);
        assert forall|v: Value| #[trigger] ir.has_value(v) implies after.def(v).ty == ir.def(
            v,
        ).ty by {}
        assert forall|o: OpId| #[trigger] after.ops.contains_key(o) implies after.decides_on_bit(
            o,
        ) by {
            if o < ir.next_op {
                ir.operands_there(o);
                if ir.ops[o].operands.len() > 0 {
                    assert(ir.has_value(ir.ops[o].operands[0]));
                }
                ir.still_decides_on_bit(after, o);
            }
        }
    }
}

impl CFToLLVM {
    /// If all conditions are signless 1-bit integers, and the types that meet in an operation
    /// agree, then all conditions are signless 1-bit integers after the operation is lowered.
    pub proof fn lowering_keeps_conditions(ir: Ir, op: OpId)
        requires
            ir.wf(),
            CFToLLVM::lowerable(ir, op),
            CFToLLVM::types_agree(ir, op),
            ir.all_decide_on_bits(),
            CFToLLVM::lowered(ir, op).wf(),
        ensures
            CFToLLVM::lowered(ir, op).all_decide_on_bits(),
    {
        match ir.ops[op].kind {
            OpKind::CfBr => (BrOp { op }).lowering_keeps_conditions(ir),
            OpKind::CfCondBr => (CondBrOp { op }).lowering_keeps_conditions(ir),
            OpKind::CfFor => (ForOp { op }).lowering_keeps_conditions(ir),
            OpKind::CfNDFor => (NDForOp { op }).lowering_keeps_conditions(ir),
            OpKind::CfExecuteRegion => (ExecuteRegionOp { op }).lowering_keeps_conditions(ir),
            OpKind::CfIf => (IfOp { op }).lowering_keeps_conditions(ir),
            _ => {},
        }
    }
}

} // verus!
