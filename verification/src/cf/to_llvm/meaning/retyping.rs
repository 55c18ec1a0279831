//! Converting the types of arguments of blocks changes nothing else.

use crate::cf::ops::{ForOp, NDForOp};
use crate::cf::semantics::State;
use crate::cf::to_llvm::CFToLLVM;
use crate::ir::model::Ir;
use crate::ir::types::{BlockId, OpId, OpKind, RegionId, Value};
use vstd::prelude::*;

verus! {

impl Ir {
    /// Are two representations the same but for what is known of the arguments of blocks?
    pub open spec fn same_code(self, later: Ir) -> bool {
        &&& later.ops == self.ops
        &&& self.same_frame(later)
    }

    /// The same code does the same.
    proof fn code_ran(
        self,
        later: Ir,
        acts: spec_fn(OpId, Seq<int>, int) -> (Seq<int>, int),
        o: OpId,
        s: State,
        fuel: nat,
    )
        requires
            self.same_code(later),
        ensures
            later.ran(acts, o, s, fuel) == self.ran(acts, o, s, fuel),
        decreases fuel, 3nat, 0nat,
    {
        let run = self.running(acts, o, 0, fuel);
        match self.ops[o].kind {
            OpKind::CfFor => {
                let this = ForOp { op: o };
                self.code_running(later, acts, o, 0, fuel);
                this.rounds_same(
                    self,
                    later,
                    run,
                    (s.values)(this.upper_bound(self)),
                    (s.values)(this.step(self)),
                    (s.values)(this.lower_bound(self)),
                    s.read(this.iter_args_init(self)),
                    s,
                    fuel,
                );
            },
            OpKind::CfNDFor => {
                let this = NDForOp { op: o };
                self.code_running(later, acts, o, 0, fuel);
                this.nest_same(
                    self,
                    later,
                    run,
                    s.read(this.lower_bounds(self)),
                    s.read(this.upper_bounds(self)),
                    s.read(this.steps(self)),
                    Seq::empty(),
                    s,
                    fuel,
                );
            },
            OpKind::CfExecuteRegion => {
                self.code_running(later, acts, o, 0, fuel);
            },
            OpKind::CfIf => {
                self.code_running(later, acts, o, 0, fuel);
                self.code_running(later, acts, o, 1, fuel);
            },
            _ => {},
        }
    }

    proof fn code_running(
        self,
        later: Ir,
        acts: spec_fn(OpId, Seq<int>, int) -> (Seq<int>, int),
        o: OpId,
        i: int,
        fuel: nat,
    )
        requires
            self.same_code(later),
        ensures
            later.running(acts, o, i, fuel) == self.running(acts, o, i, fuel),
        decreases fuel, 2nat, 0nat,
    {
        let run = self.running(acts, o, i, fuel);
        let now = later.running(acts, o, i, fuel);
        let region = self.ops[o].regions[i];
        let entry = self.entry(o, i);
        assert forall|t: State| #[trigger] now(t) == run(t) by {
            self.code_region(later, acts, region, entry, t, fuel);
        }
        assert(now =~= run);
    }

    proof fn code_ran_all(
        self,
        later: Ir,
        acts: spec_fn(OpId, Seq<int>, int) -> (Seq<int>, int),
        ops: Seq<OpId>,
        s: State,
        fuel: nat,
    )
        requires
            self.same_code(later),
        ensures
            later.ran_all(acts, ops, s, fuel) == self.ran_all(acts, ops, s, fuel),
        decreases fuel, 4nat, ops.len(),
    {
        if ops.len() > 0 {
            self.code_ran_all(later, acts, ops.drop_last(), s, fuel);
            let t = self.ran_all(acts, ops.drop_last(), s, fuel);
            if t is Some {
                self.code_ran(later, acts, ops.last(), t->0, fuel);
            }
        }
    }

    /// So does the run of a region.
    pub(crate) proof fn code_region(
        self,
        later: Ir,
        acts: spec_fn(OpId, Seq<int>, int) -> (Seq<int>, int),
        region: RegionId,
        block: BlockId,
        s: State,
        fuel: nat,
    )
        requires
            self.same_code(later),
        ensures
            later.ran_region(acts, region, block, s, fuel) == self.ran_region(
                acts,
                region,
                block,
                s,
                fuel,
            ),
        decreases fuel, 1nat, 0nat,
    {
        let ops = self.blocks[block].ops;
        assert(later.blocks[block].ops == ops);
        if fuel > 0 && ops.len() > 0 {
            let less = (fuel - 1) as nat;
            self.code_ran_all(later, acts, ops.drop_last(), s, less);
            let t = self.ran_all(acts, ops.drop_last(), s, less);
            if t is Some && !self.ops[ops.last()].kind.closes() {
                let to = self.led(acts, ops.last(), t->0);
                assert(later.led(acts, ops.last(), t->0) == to);
                if to is Some {
                    self.code_region(later, acts, region, to->0.block, to->0.state, less);
                }
            }
        }
    }

    /// The representation after the type of an argument of a block is converted.
    pub open spec fn argument_converted(self, block: BlockId, idx: int) -> Ir {
        self.retyped_argument(block, idx, self.blocks[block].args[idx].ty.converted())
    }

    /// Converting the type of an argument changes nothing else, and types, once converted, are
    /// what they were.
    pub(crate) proof fn argument_converted_keeps(self, block: BlockId, idx: int)
        requires
            self.wf(),
            self.blocks.contains_key(block),
            0 <= idx < self.blocks[block].args.len(),
        ensures
            self.argument_converted(block, idx).wf(),
            self.same_code(self.argument_converted(block, idx)),
            forall|v: Value| #[trigger]
                self.has_value(v) ==> self.argument_converted(block, idx).def(v).ty.converted()
                    == self.def(v).ty.converted(),
            forall|b: BlockId|
                self.blocks.contains_key(b) ==> #[trigger] self.argument_converted(
                    block,
                    idx,
                ).argument_types(b) == self.argument_types(b),
    {
        let after = self.argument_converted(block, idx);
        assert(after.wf()) by {
            reveal(Ir::wf);
        }
        assert forall|b: BlockId| self.blocks.contains_key(b) implies
            #[trigger] after.argument_types(b) == self.argument_types(b) by {
            assert(after.argument_types(b) =~= self.argument_types(b));
        }
        assert forall|v: Value| #[trigger] self.has_value(v) implies after.def(v).ty.converted()
            == self.def(v).ty.converted() by {
            if let Value::BlockArgument { block: b, idx: i } = v {
                assert(after.argument_types(b)[i as int] == self.argument_types(b)[i as int]);
            }
        }
    }

    /// Values have the types that they had, once these are converted.
    proof fn converted_alike(self, block: BlockId, idx: int, vs: Seq<Value>)
        requires
            self.wf(),
            self.blocks.contains_key(block),
            0 <= idx < self.blocks[block].args.len(),
            self.has_values(vs),
        ensures
            self.argument_converted(block, idx).lowered_types(vs) == self.lowered_types(vs),
    {
        let after = self.argument_converted(block, idx);
        self.argument_converted_keeps(block, idx);
        assert forall|i: int| 0 <= i < vs.len() implies after.def(
            #[trigger] vs[i],
        ).ty.converted() == self.def(vs[i]).ty.converted() by {
            assert(self.has_value(vs[i]));
        }
        assert(after.lowered_types(vs) =~= self.lowered_types(vs));
    }
}

impl CFToLLVM {
    /// The values of a segment are there.
    proof fn segment_there(ir: Ir, o: OpId, k: int)
        requires
            ir.wf(),
            ir.ops.contains_key(o),
            ir.ops[o].has_segment(k),
        ensures
            ir.has_values(ir.ops[o].segment(k)),
            ir.ops[o].segment(k).len() == ir.ops[o].segments[k],
    {
        let view = ir.ops[o];
        view.segment_in_range(k);
        ir.operands_there(o);
        assert forall|j: int| 0 <= j < view.segment(k).len() implies ir.has_value(
            #[trigger] view.segment(k)[j],
        ) by {
            assert(view.segment(k)[j] == view.operands[view.segment_start(k) + j]);
        }
    }

    /// The types that meet in an operation agree as before once the type of an argument of a block
    /// is converted.
    proof fn retyping_keeps_types(ir: Ir, block: BlockId, idx: int, o: OpId)
        requires
            ir.wf(),
            ir.blocks.contains_key(block),
            0 <= idx < ir.blocks[block].args.len(),
            ir.ops.contains_key(o),
            CFToLLVM::lowerable(ir, o),
            CFToLLVM::types_agree(ir, o),
        ensures
            CFToLLVM::types_agree(ir.argument_converted(block, idx), o),
    {
        let after = ir.argument_converted(block, idx);
        let view = ir.ops[o];
        ir.argument_converted_keeps(block, idx);
        if view.regions.len() > 0 {
            ir.entry_exit_in_range(o, 0);
            ir.operands_there(ir.exit_op(o, 0));
            ir.converted_alike(block, idx, ir.ops[ir.exit_op(o, 0)].operands);
            assert(after.exit_op(o, 0) == ir.exit_op(o, 0));
        }
        match view.kind {
            OpKind::CfFor => {
                let this = ForOp { op: o };
                view.earlier_segment(0, 1);
                CFToLLVM::segment_there(ir, o, 0);
                CFToLLVM::segment_there(ir, o, 1);
                ir.converted_alike(block, idx, view.segment(1));
                assert(ir.has_value(view.segment(0)[0]));
                assert(ir.has_value(this.induction_variable(ir)));
                let vars = this.loop_carried_variables(ir);
                assert(this.loop_carried_variables(after) =~= vars);
                assert(ir.has_values(vars)) by {
                    assert(ir.lowered_types(vars).len() == view.results.len());
                }
                ir.converted_alike(block, idx, vars);
            },
            OpKind::CfNDFor => {
                let this = NDForOp { op: o };
                view.earlier_segment(0, 2);
                CFToLLVM::segment_there(ir, o, 0);
                let n = this.dims(ir);
                assert(this.dims(after) == n);
                assert(ir.has_values(view.segment(0).take(n)));
                ir.converted_alike(block, idx, view.segment(0).take(n));
                assert(after.argument_types(this.entry(ir)) == ir.argument_types(this.entry(ir)));
            },
            OpKind::CfIf => {
                if view.regions.len() > 1 {
                    ir.entry_exit_in_range(o, 1);
                    ir.operands_there(ir.exit_op(o, 1));
                    ir.converted_alike(block, idx, ir.ops[ir.exit_op(o, 1)].operands);
                }
            },
            _ => {},
        }
    }

    /// Converting the type of an argument of a block keeps all operations in order.
    pub proof fn retyping_keeps_order(ir: Ir, block: BlockId, idx: int, o: OpId)
        requires
            ir.wf(),
            ir.blocks.contains_key(block),
            0 <= idx < ir.blocks[block].args.len(),
            CFToLLVM::in_order(ir, o),
        ensures
            ir.argument_converted(block, idx).wf(),
            CFToLLVM::in_order(ir.argument_converted(block, idx), o),
            ir.branches_stay() ==> ir.argument_converted(block, idx).branches_stay(),
    {
        let after = ir.argument_converted(block, idx);
        let view = ir.ops[o];
        ir.argument_converted_keeps(block, idx);
        CFToLLVM::retyping_keeps_types(ir, block, idx, o);
        ir.frame_stays(after);
        assert(after.exit_op(o, 0) == ir.exit_op(o, 0));
        assert(after.exit_op(o, 1) == ir.exit_op(o, 1));
        if ir.used_only_behind(o) {
            ir.frame_used_only_behind(after, o);
        }
        match view.kind {
            OpKind::CfFor => {
                let this = ForOp { op: o };
                ir.frame_fixed_in(after, this.body(ir), this.upper_bound(ir));
                ir.frame_fixed_in(after, this.body(ir), this.step(ir));
                ir.frame_fixed_in(after, this.body(ir), this.induction_variable(ir));
            },
            OpKind::CfNDFor => {
                assert forall|i: int| 0 <= i < view.operands.len() implies after.fixed_by(
                    o,
                    #[trigger] after.ops[o].operands[i],
                ) by {
                    let v = view.operands[i];
                    assert(ir.fixed_by(o, ir.ops[o].operands[i]));
                    assert forall|depth: nat| #[trigger] after.fixed_to(o, v, depth) by {
                        assert(ir.fixed_to(o, v, depth));
                        ir.frame_fixed(after, o, v, depth);
                    }
                }
            },
            _ => {},
        }
        assert forall|i: int, b: BlockId|
            #![trigger after.has_body(o, i), after.blocks[b]]
            after.has_body(o, i) && after.blocks.contains_key(b) && after.blocks[b].parent
                == after.ops[o].regions[i] && b != after.exit(o, i) && after.blocks[b].ops.len()
                > 0 implies !after.ops[after.blocks[b].ops.last()].kind.closes() by {
            assert(ir.has_body(o, i));
            assert(ir.blocks.contains_key(b));
            assert(ir.blocks[b].ops == after.blocks[b].ops);
        }
    }
}

} // verus!
