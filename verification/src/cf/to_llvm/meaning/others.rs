//! The operations that are still to be lowered can be lowered as before.

use crate::cf::ops::{ForOp, NDForOp};
use crate::cf::to_llvm::meaning::whole::Replacement;
use crate::cf::to_llvm::CFToLLVM;
use crate::ir::model::Ir;
use crate::ir::types::{BlockId, OpId, OpKind, Value};
use vstd::prelude::*;

verus! {

impl Ir {
    /// Has what stands for a value the type of that value, once types are converted, and do
    /// blocks take what they took?
    pub open spec fn types_kept(self, later: Ir, way: Replacement) -> bool {
        &&& forall|v: Value| #[trigger]
            self.has_value(v) ==> later.def(Ir::now(way, v)).ty.converted() == self.def(
                v,
            ).ty.converted()
        &&& forall|b: BlockId|
            self.blocks.contains_key(b) ==> #[trigger] later.argument_types(b)
                == self.argument_types(b)
    }

    /// What stands for values has their types.
    proof fn stand_ins_typed(self, later: Ir, way: Replacement, vs: Seq<Value>)
        requires
            self.types_kept(later, way),
            self.has_values(vs),
        ensures
            later.lowered_types(way.stand_ins(vs)) == self.lowered_types(vs),
    {
        assert forall|i: int| 0 <= i < vs.len() implies later.def(
            #[trigger] way.stand_ins(vs)[i],
        ).ty.converted() == self.def(vs[i]).ty.converted() by {
            assert(self.has_value(vs[i]));
            assert(way.stand_ins(vs)[i] == Ir::now(way, vs[i]));
        }
        assert(later.lowered_types(way.stand_ins(vs)) =~= self.lowered_types(vs));
    }

    /// The segments of an operation that is still there hold what stands for what they held.
    pub(crate) proof fn segment_renamed(self, later: Ir, way: Replacement, o: OpId, k: int)
        requires
            self.wf(),
            self.ops.contains_key(o),
            self.same_but_renamed(later, way, o),
            self.ops[o].has_segment(k),
        ensures
            later.ops[o].has_segment(k),
            later.ops[o].segment(k) == way.stand_ins(self.ops[o].segment(k)),
            self.ops[o].segment(k).len() == self.ops[o].segments[k],
            self.has_values(self.ops[o].segment(k)),
    {
        let view = self.ops[o];
        let now = later.ops[o];
        view.segment_in_range(k);
        self.operands_there(o);
        assert(now.segment_start(k) == view.segment_start(k));
        assert(now.segment_start(k + 1) == view.segment_start(k + 1));
        assert forall|j: int| 0 <= j < view.segment(k).len() implies self.has_value(
            #[trigger] view.segment(k)[j],
        ) && now.segment(k)[j] == way.stand_ins(view.segment(k))[j] by {
            assert(view.segment(k)[j] == view.operands[view.segment_start(k) + j]);
            assert(now.segment(k)[j] == now.operands[view.segment_start(k) + j]);
        }
        assert(now.segment(k) =~= way.stand_ins(view.segment(k)));
    }

    /// Was the operation replaced such that an operation that is still there is kept, and in order?
    spec fn beside(self, later: Ir, way: Replacement, other: OpId) -> bool {
        &&& self.reshaped(later, way)
        &&& self.types_kept(later, way)
        &&& self.kept(other, way.op)
        &&& CFToLLVM::lowerable(self, other)
        &&& CFToLLVM::well_used(self, other)
        &&& CFToLLVM::types_agree(self, other)
    }

    /// Is an operation, after another has been replaced, still in order?
    spec fn still_ready(later: Ir, other: OpId) -> bool {
        &&& CFToLLVM::lowerable(later, other)
        &&& CFToLLVM::well_used(later, other)
        &&& CFToLLVM::types_agree(later, other)
    }

    /// A branch that is still there is still in order.
    proof fn branch_ready(self, later: Ir, way: Replacement, other: OpId)
        requires
            self.beside(later, way, other),
            self.ops[other].kind is CfBr || self.ops[other].kind is CfCondBr,
        ensures
            Ir::still_ready(later, other),
    {
        self.lands(later, way, other);
        assert(self.same_but_renamed(later, way, other));
        if self.ops[other].kind is CfCondBr {
            self.segment_renamed(later, way, other, 2);
        }
    }

    /// So is an operation with a region.
    proof fn region_ready(self, later: Ir, way: Replacement, other: OpId)
        requires
            self.beside(later, way, other),
            self.ops[other].kind is CfExecuteRegion,
        ensures
            Ir::still_ready(later, other),
    {
        self.lands(later, way, other);
        assert(self.same_but_renamed(later, way, other));
        self.still_used_only_behind(later, way, other);
        self.still_yields_outward(later, way, other, 0);
        let y = self.exit_op(other, 0);
        self.operands_there(y);
        self.stand_ins_typed(later, way, self.ops[y].operands);
    }

    /// So is a choice.
    proof fn choice_ready(self, later: Ir, way: Replacement, other: OpId)
        requires
            self.beside(later, way, other),
            self.ops[other].kind is CfIf,
        ensures
            Ir::still_ready(later, other),
    {
        self.lands(later, way, other);
        assert(self.same_but_renamed(later, way, other));
        self.still_used_only_behind(later, way, other);
        self.still_yields_outward(later, way, other, 0);
        let y = self.exit_op(other, 0);
        self.operands_there(y);
        self.stand_ins_typed(later, way, self.ops[y].operands);
        if self.ops[other].regions.len() > 1 {
            self.still_yields_outward(later, way, other, 1);
            let z = self.exit_op(other, 1);
            self.operands_there(z);
            self.stand_ins_typed(later, way, self.ops[z].operands);
        }
    }

    /// So is a loop over several dimensions.
    proof fn nest_ready(self, later: Ir, way: Replacement, other: OpId)
        requires
            self.beside(later, way, other),
            self.ops[other].kind is CfNDFor,
        ensures
            Ir::still_ready(later, other),
    {
        let this = NDForOp { op: other };
        let view = self.ops[other];
        self.lands(later, way, other);
        assert(self.same_but_renamed(later, way, other));
        self.still_used_only_behind(later, way, other);
        self.still_yields_outward(later, way, other, 0);
        self.entry_exit_in_range(other, 0);
        view.earlier_segment(0, 2);
        view.earlier_segment(1, 2);
        self.segment_renamed(later, way, other, 0);
        self.segment_renamed(later, way, other, 1);
        self.segment_renamed(later, way, other, 2);
        let n = this.dims(self);
        assert(this.dims(later) == n);
        let lowers = this.lower_bounds(self);
        assert(this.lower_bounds(later).take(n) =~= way.stand_ins(lowers.take(n)));
        self.stand_ins_typed(later, way, lowers.take(n));
        self.operands_there(other);
        assert forall|i: int| 0 <= i < later.ops[other].operands.len() implies later.fixed_by(
            other,
            #[trigger] later.ops[other].operands[i],
        ) by {
            let v = view.operands[i];
            assert(self.fixed_by(other, v));
            assert(self.has_value(v));
            assert(later.ops[other].operands[i] == Ir::now(way, v));
            assert forall|depth: nat| #[trigger]
                later.fixed_to(other, later.ops[other].operands[i], depth) by {
                self.still_fixed_to(later, way, other, v, depth);
            }
        }
    }

    /// So is a loop.
    proof fn loop_ready(self, later: Ir, way: Replacement, other: OpId)
        requires
            self.beside(later, way, other),
            self.ops[other].kind is CfFor,
        ensures
            Ir::still_ready(later, other),
    {
        let this = ForOp { op: other };
        let view = self.ops[other];
        self.lands(later, way, other);
        assert(self.same_but_renamed(later, way, other));
        self.still_used_only_behind(later, way, other);
        self.still_yields_outward(later, way, other, 0);
        self.entry_exit_in_range(other, 0);
        view.earlier_segment(0, 1);
        self.segment_renamed(later, way, other, 0);
        self.segment_renamed(later, way, other, 1);
        let y = self.exit_op(other, 0);
        self.operands_there(y);
        self.stand_ins_typed(later, way, self.ops[y].operands);
        self.stand_ins_typed(later, way, this.iter_args_init(self));
        let entry = this.entry(self);
        let iv = this.induction_variable(self);
        assert(this.induction_variable(later) == iv);
        assert(Ir::now(way, iv) == iv);
        assert(self.has_value(iv));
        let lower = this.lower_bound(self);
        let upper = this.upper_bound(self);
        let step = this.step(self);
        assert(self.has_value(view.segment(0)[0]));
        assert(self.has_value(view.segment(0)[1]));
        assert(self.has_value(view.segment(0)[2]));
        assert(this.lower_bound(later) == Ir::now(way, lower));
        assert(this.upper_bound(later) == Ir::now(way, upper));
        assert(this.step(later) == Ir::now(way, step));
        self.still_fixed_in(later, way, other, 0, upper);
        self.still_fixed_in(later, way, other, 0, step);
        self.still_fixed_in(later, way, other, 0, iv);
        let vars = this.loop_carried_variables(self);
        assert(this.loop_carried_variables(later) =~= vars);
        assert(later.argument_types(entry) == self.argument_types(entry));
        assert(later.lowered_types(vars) =~= self.lowered_types(vars)) by {
            assert forall|i: int| 0 <= i < vars.len() implies later.def(
                #[trigger] vars[i],
            ).ty.converted() == self.def(vars[i]).ty.converted() by {
                assert(self.has_value(vars[i]));
                assert(Ir::now(way, vars[i]) == vars[i]);
            }
        }
    }

    /// An operation that is still there is still in order.
    pub(crate) proof fn still_in_order(self, later: Ir, way: Replacement, other: OpId)
        requires
            self.reshaped(later, way),
            self.types_kept(later, way),
            self.kept(other, way.op),
            CFToLLVM::lowerable(self, other),
            CFToLLVM::well_used(self, other),
            CFToLLVM::types_agree(self, other),
            self.ends_last(other),
            self.ends_last(way.op),
        ensures
            CFToLLVM::lowerable(later, other),
            CFToLLVM::well_used(later, other),
            CFToLLVM::types_agree(later, other),
            later.ends_last(other),
            later.branches_stay(),
    {
        self.still_stays(later, way);
        self.still_ends_last(later, way, other);
        match self.ops[other].kind {
            OpKind::CfBr | OpKind::CfCondBr => {
                self.branch_ready(later, way, other);
            },
            OpKind::CfFor => {
                self.loop_ready(later, way, other);
            },
            OpKind::CfNDFor => {
                self.nest_ready(later, way, other);
            },
            OpKind::CfExecuteRegion => {
                self.region_ready(later, way, other);
            },
            OpKind::CfIf => {
                self.choice_ready(later, way, other);
            },
            _ => {},
        }
    }
}

} // verus!
