//! What the check, and converting the types of arguments, have to do with what branches forward.

use crate::cf::ops::{ExecuteRegionOp, ForOp, IfOp, NDForOp, YieldOp};
use crate::cf::to_llvm::CFToLLVM;
use crate::cf::verify::VerifyErr;
use crate::ir::model::{Def, Ir};
use crate::ir::types::{BlockId, OpId, OpKind, Type, Value};
use vstd::prelude::*;

verus! {

impl Ir {
    /// Values of the types that are asked for are so once all types are converted.
    proof fn same_types_converted(self, defs: Seq<Def>, values: Seq<Value>)
        requires
            defs.map_values(|d: Def| d.ty) == self.types_of(values),
        ensures
            defs.map_values(|d: Def| d.ty.converted()) == self.lowered_types(values),
    {
        let types = defs.map_values(|d: Def| d.ty);
        assert(types.len() == values.len());
        assert forall|i: int| 0 <= i < defs.len() implies (#[trigger] defs[i]).ty == self.def(
            values[i],
        ).ty by {
            assert(types[i] == defs[i].ty);
            assert(self.types_of(values)[i] == self.def(values[i]).ty);
        }
        assert(defs.map_values(|d: Def| d.ty.converted()) =~= self.lowered_types(values));
    }

    /// A block to which values can be forwarded takes them.
    proof fn forwarding_takes(self, values: Seq<Value>, dest: BlockId)
        requires
            VerifyErr::forwarding(self, values, dest) is None,
        ensures
            self.takes(dest, values),
    {
        let args = self.blocks[dest].args;
        assert forall|i: int| 0 <= i < values.len() implies self.def(#[trigger] values[i]).ty
            == args[i].ty by {}
        assert(args.map_values(|d: Def| d.ty) =~= self.types_of(values));
        self.same_types_converted(args, values);
    }

    /// A branch with which the check finds nothing wrong forwards to its targets what those
    /// take.
    pub proof fn checked_forwards_well(self, o: OpId)
        requires
            self.ops[o].kind is CfBr || self.ops[o].kind is CfCondBr,
            VerifyErr::finding(self, o) is None,
        ensures
            self.forwards_well(o),
    {
        let view = self.ops[o];
        if view.kind is CfBr {
            self.forwarding_takes(view.operands, view.successors[0]);
        } else {
            view.all_segments_there();
            self.forwarding_takes(view.segment(1), view.successors[0]);
            self.forwarding_takes(view.segment(2), view.successors[1]);
        }
    }

    /// Converting the type of an argument of a block keeps what branches forward.
    pub proof fn retyping_keeps_forwarding(self, block: BlockId, idx: int)
        requires
            self.wf(),
            self.blocks.contains_key(block),
            0 <= idx < self.blocks[block].args.len(),
            self.all_forward_well(),
        ensures
            self.argument_converted(block, idx).all_forward_well(),
    {
        let after = self.argument_converted(block, idx);
        self.argument_converted_keeps(block, idx);
        assert forall|o: OpId| #[trigger] after.ops.contains_key(o) implies after.forwards_well(
            o,
        ) by {
            self.operands_there(o);
            assert forall|i: int| 0 <= i < self.ops[o].operands.len() implies after.def(
                #[trigger] after.ops[o].operands[i],
            ).ty.converted() == self.def(self.ops[o].operands[i]).ty.converted() by {
                assert(self.has_value(self.ops[o].operands[i]));
            }
            self.still_forwards_well(after, o);
        }
    }

    /// Is nothing of index type?
    pub open spec fn has_no_index(self) -> bool {
        &&& forall|v: Value| #[trigger] self.has_value(v) ==> !(self.def(v).ty is Index)
        &&& forall|b: BlockId, i: int|
            self.blocks.contains_key(b) && 0 <= i < self.blocks[b].args.len() ==> !((
            #[trigger] self.blocks[b].args[i]).ty is Index)
    }

    /// Once nothing is of index type, a block takes exactly values of the types of its arguments.
    pub proof fn takes_exactly(self, dest: BlockId, values: Seq<Value>)
        requires
            self.has_no_index(),
            self.blocks.contains_key(dest),
            self.has_values(values),
        ensures
            self.takes(dest, values) <==> VerifyErr::forwarding(self, values, dest) is None,
    {
        let args = self.blocks[dest].args;
        if self.takes(dest, values) {
            assert(self.lowered_types(values).len() == self.argument_types(dest).len());
            assert forall|i: int| 0 <= i < values.len() implies self.def(#[trigger] values[i]).ty
                == args[i].ty by {
                assert(self.lowered_types(values)[i] == self.argument_types(dest)[i]);
                assert(self.has_value(values[i]));
                assert(!(self.blocks[dest].args[i].ty is Index));
            }
        }
        if VerifyErr::forwarding(self, values, dest) is None {
            self.forwarding_takes(values, dest);
        }
    }
}

impl CFToLLVM {
    /// What ends a region, and is in order, yields values of the types of the results.
    proof fn yields_results(ir: Ir, op: OpId, i: int)
        requires
            ir.wf(),
            ir.has_exit_op(op, i),
            ir.ops[ir.exit_op(op, i)].kind is CfYield,
            CFToLLVM::ends_checked(ir, op),
        ensures
            ir.ops[op].results.map_values(|d: Def| d.ty.converted()) == ir.lowered_types(
                ir.ops[ir.exit_op(op, i)].operands,
            ),
    {
        let y = ir.exit_op(op, i);
        ir.entry_exit_in_range(op, i);
        assert((YieldOp { op: y }).verified(ir) is Ok);
        ir.same_types_converted(ir.ops[op].results, ir.ops[y].operands);
    }

    /// In an operation that can be lowered, and with which the check finds nothing wrong, the
    /// types that meet agree.
    pub proof fn checked_types_agree(ir: Ir, op: OpId)
        requires
            ir.wf(),
            CFToLLVM::is_control_flow(ir.ops[op].kind),
            CFToLLVM::lowerable(ir, op),
            VerifyErr::finding(ir, op) is None,
            CFToLLVM::ends_checked(ir, op),
        ensures
            CFToLLVM::types_agree(ir, op),
    {
        let view = ir.ops[op];
        match view.kind {
            OpKind::CfFor => {
                let this = ForOp { op };
                assert(this.verified(ir) is Ok);
                CFToLLVM::yields_results(ir, op, 0);
                ir.same_types_converted(view.results, this.iter_args_init(ir));
                ir.same_types_converted(view.results, this.loop_carried_variables(ir));
            },
            OpKind::CfNDFor => {
                let this = NDForOp { op };
                assert(this.verified(ir) is Ok);
                let n = this.dims(ir);
                view.earlier_segment(0, 2);
                view.earlier_segment(1, 2);
                view.segment_in_range(0);
                view.segment_in_range(1);
                view.segment_in_range(2);
                let indices = Seq::new(n as nat, |i: int| Type::signless(64));
                let lowers = this.lower_bounds(ir);
                assert(n == lowers.len() && n == view.segment_size(0));
                assert(lowers.take(n) =~= lowers);
                assert(ir.lowered_types(lowers) =~= indices);
                let vars = this.induction_variables(ir);
                let args = ir.blocks[this.entry(ir)].args;
                assert forall|i: int| 0 <= i < n implies (#[trigger] args[i]).ty is Index by {
                    assert(ir.def(vars[i]) == args[i]);
                }
                assert(ir.argument_types(this.entry(ir)) =~= indices);
            },
            OpKind::CfExecuteRegion => {
                assert((ExecuteRegionOp { op }).verified(ir) is Ok);
                CFToLLVM::yields_results(ir, op, 0);
            },
            OpKind::CfIf => {
                let this = IfOp { op };
                assert(this.verified(ir) is Ok);
                assert(ir.blocks[this.entry(ir, 0)].args.len() == 0);
                CFToLLVM::yields_results(ir, op, 0);
                if this.has_else(ir) {
                    assert(ir.blocks[this.entry(ir, 1)].args.len() == 0);
                    CFToLLVM::yields_results(ir, op, 1);
                }
            },
            _ => {},
        }
    }
}

} // verus!
