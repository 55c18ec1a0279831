//! After a lowering, the program around an operation comes to an end only if it did so before.

use crate::cf::ops::{BrOp, CondBrOp, ExecuteRegionOp, ForOp, IfOp, NDForOp};
use crate::cf::semantics::State;
use crate::cf::to_llvm::meaning::whole::Replacement;
use crate::cf::to_llvm::CFToLLVM;
use crate::ir::model::Ir;
use crate::ir::types::{OpId, OpKind, RegionId};
use vstd::prelude::*;

verus! {

impl ForOp {
    /// What becomes of the loop does no more than it did.
    proof fn matched(
        self,
        ir: Ir,
        acts: spec_fn(OpId, Seq<int>, int) -> (Seq<int>, int),
    )
        requires
            ir.wf(),
            self.lowerable(ir),
            self.lowered(ir).wf(),
            ir.ops[self.op].kind is CfFor,
            ir.used_only_behind(self.op),
            self.steady(ir),
            ir.blocks[ir.holder(self.op)].ops.last() != self.op,
            ir.branches_stay(),
            ir.ends_last(self.op),
        ensures
            ir.matched_by(self.lowered(ir), self.replacement(ir), acts),
    {
        let after = self.lowered(ir);
        let way = self.replacement(ir);
        self.replaced(ir, acts);
        self.surrounded(ir);
        assert(after.next_block <= usize::MAX) by {
            reveal(Ir::wf);
        }
        ir.ordered();
        ir.entry_exit_in_range(self.op, 0);
        ir.position_in_range(self.op);
        assert forall|r: RegionId| #[trigger]
            ir.regions.contains_key(r) && ir.regions[r].parent != self.op
                && ir.regions[r].blocks.len() == 0 implies after.regions[r].blocks.len() == 0 by {
            ir.holder_region(self.op);
        }
        assert forall|s: State, t: State, fuel: nat|
            #![trigger ir.matches_up(way, s, t), ir.passes(after, way, acts, t, fuel)]
            ir.matches_up(way, s, t) && ir.passes(after, way, acts, t, fuel) implies exists|f: nat|
            #[trigger] ir.ran_through(acts, way.op, s, f) is Some by {
            ir.matches_agree(way, s, t);
            self.lowering_adds_nothing(ir, acts, s, t, fuel);
        }
    }
}

impl ExecuteRegionOp {
    /// What becomes of the operation does no more than it did.
    proof fn matched(
        self,
        ir: Ir,
        acts: spec_fn(OpId, Seq<int>, int) -> (Seq<int>, int),
    )
        requires
            ir.wf(),
            self.lowerable(ir),
            self.lowered(ir).wf(),
            ir.ops[self.op].kind is CfExecuteRegion,
            ir.used_only_behind(self.op),
            ir.blocks[ir.holder(self.op)].ops.last() != self.op,
            ir.branches_stay(),
            ir.ends_last(self.op),
        ensures
            ir.matched_by(self.lowered(ir), self.replacement(ir), acts),
    {
        let after = self.lowered(ir);
        let way = self.replacement(ir);
        self.replaced(ir, acts);
        self.surrounded(ir);
        assert(after.next_block <= usize::MAX) by {
            reveal(Ir::wf);
        }
        ir.ordered();
        ir.entry_exit_in_range(self.op, 0);
        ir.position_in_range(self.op);
        assert forall|r: RegionId| #[trigger]
            ir.regions.contains_key(r) && ir.regions[r].parent != self.op
                && ir.regions[r].blocks.len() == 0 implies after.regions[r].blocks.len() == 0 by {
            ir.holder_region(self.op);
        }
        assert forall|s: State, t: State, fuel: nat|
            #![trigger ir.matches_up(way, s, t), ir.passes(after, way, acts, t, fuel)]
            ir.matches_up(way, s, t) && ir.passes(after, way, acts, t, fuel) implies exists|f: nat|
            #[trigger] ir.ran_through(acts, way.op, s, f) is Some by {
            ir.matches_agree(way, s, t);
            self.lowering_adds_nothing(ir, acts, s, t, fuel);
        }
    }
}

impl IfOp {
    /// What becomes of the operation does no more than it did.
    proof fn matched(
        self,
        ir: Ir,
        acts: spec_fn(OpId, Seq<int>, int) -> (Seq<int>, int),
    )
        requires
            ir.wf(),
            self.lowerable(ir),
            self.lowered(ir).wf(),
            ir.ops[self.op].kind is CfIf,
            ir.used_only_behind(self.op),
            self.has_else(ir) || ir.ops[self.op].results.len() == 0,
            ir.blocks[ir.holder(self.op)].ops.last() != self.op,
            ir.branches_stay(),
            ir.ends_last(self.op),
        ensures
            ir.matched_by(self.lowered(ir), self.replacement(ir), acts),
    {
        let after = self.lowered(ir);
        let way = self.replacement(ir);
        self.replaced(ir, acts);
        self.surrounded(ir);
        assert(after.next_block <= usize::MAX) by {
            reveal(Ir::wf);
        }
        self.apart(ir);
        ir.ordered();
        ir.position_in_range(self.op);
        assert forall|r: RegionId| #[trigger]
            ir.regions.contains_key(r) && ir.regions[r].parent != self.op
                && ir.regions[r].blocks.len() == 0 implies after.regions[r].blocks.len() == 0 by {
            ir.holder_region(self.op);
        }
        assert forall|s: State, t: State, fuel: nat|
            #![trigger ir.matches_up(way, s, t), ir.passes(after, way, acts, t, fuel)]
            ir.matches_up(way, s, t) && ir.passes(after, way, acts, t, fuel) implies exists|f: nat|
            #[trigger] ir.ran_through(acts, way.op, s, f) is Some by {
            ir.matches_agree(way, s, t);
            self.lowering_adds_nothing(ir, acts, s, t, fuel);
        }
    }
}

impl NDForOp {
    /// What becomes of the loop does no more than it did.
    proof fn matched(
        self,
        ir: Ir,
        acts: spec_fn(OpId, Seq<int>, int) -> (Seq<int>, int),
    )
        requires
            ir.wf(),
            self.lowerable(ir),
            self.lowered(ir).wf(),
            ir.ops[self.op].kind is CfNDFor,
            ir.used_only_behind(self.op),
            self.steady(ir),
            ir.blocks[ir.holder(self.op)].ops.last() != self.op,
            ir.branches_stay(),
            ir.ends_last(self.op),
        ensures
            ir.matched_by(self.lowered(ir), self.replacement(ir), acts),
    {
        let after = self.lowered(ir);
        let way = self.replacement(ir);
        self.replaced(ir, acts);
        ir.ordered();
        ir.entry_exit_in_range(self.op, 0);
        assert forall|s: State, t: State, fuel: nat|
            #![trigger ir.matches_up(way, s, t), ir.passes(after, way, acts, t, fuel)]
            ir.matches_up(way, s, t) && ir.passes(after, way, acts, t, fuel) implies exists|f: nat|
            #[trigger] ir.ran_through(acts, way.op, s, f) is Some by {
            ir.matches_agree(way, s, t);
            self.lowering_adds_nothing(ir, acts, s, t, fuel);
        }
    }
}

impl Ir {
    /// The region with the block that holds an operation is not empty.
    pub(crate) proof fn holder_region(self, op: OpId)
        requires
            self.wf(),
            self.placed(op),
        ensures
            self.regions[self.blocks[self.holder(op)].parent].blocks.len() > 0,
    {
        reveal(Ir::wf);
        let b = self.holder(op);
        assert(self.blocks.contains_key(b));
        assert(self.regions[self.blocks[b].parent].blocks.contains(b));
    }

    /// A branch that is swapped for one that leads to the same places does no more than it did.
    proof fn swap_matched(
        self,
        later: Ir,
        op: OpId,
        acts: spec_fn(OpId, Seq<int>, int) -> (Seq<int>, int),
    )
        requires
            self.replaced_by(later, self.swap(op), acts),
            self.branches_stay(),
            self.blocks[self.holder(op)].ops.last() == op,
            self.ops[op].results.len() == 0,
            later.regions == self.regions,
            forall|t: State| #[trigger] self.led(acts, op, t) == later.led(acts, self.op_at(0), t),
        ensures
            self.matched_by(later, self.swap(op), acts),
    {
        let way = self.swap(op);
        assert forall|s: State, t: State| #[trigger]
            self.matches_up(way, s, t) && later.led(acts, way.new, t) is Some implies self.led(
            acts,
            op,
            s,
        ) is Some by {
            assert(self.led(acts, op, t) == later.led(acts, way.new, t));
            self.matches_agree(way, s, t);
            self.operands_there(op);
            assert forall|i: int| 0 <= i < self.ops[op].operands.len() implies !Ir::is_result(
                #[trigger] self.ops[op].operands[i],
                op,
            ) by {
                assert(self.has_value(self.ops[op].operands[i]));
            }
            self.led_alike(self, acts, op, op, s, t);
        }
    }

    /// The run of a region of an operation that is not in the replaced one came to an end if it
    /// does now, at the same operation, which was handed the same numbers.
    pub(crate) proof fn run_matches_back(
        self,
        later: Ir,
        way: Replacement,
        acts: spec_fn(OpId, Seq<int>, int) -> (Seq<int>, int),
        o: OpId,
        i: int,
        s: State,
        t: State,
        fuel: nat,
    )
        requires
            self.matched_by(later, way, acts),
            self.outside(o, way.op),
            self.has_body(o, i),
            self.matches_up(way, s, t),
            later.ran_region(acts, self.ops[o].regions[i], later.entry(o, i), t, fuel) is Some,
        ensures
            exists|f: nat|
                {
                    let end = #[trigger] self.ran_region(
                        acts,
                        self.ops[o].regions[i],
                        self.entry(o, i),
                        s,
                        f,
                    );
                    end is Some && self.same_end(
                        later,
                        way,
                        end->0,
                        later.ran_region(acts, self.ops[o].regions[i], later.entry(o, i), t, fuel),
                    )
                },
    {
        let r = self.ops[o].regions[i];
        let entry = self.entry(o, i);
        self.bodies_match(later, way, o, i);
        let f = self.ran_region_back(later, way, acts, o, i, entry, s, t, fuel);
        self.run_matches(later, way, acts, o, i, s, t, f);
        let end = self.ran_region(acts, r, entry, s, f)->0;
        let g = choose|g: nat|
            self.same_end(
                later,
                way,
                end,
                #[trigger] later.ran_region(acts, self.ops[o].regions[i], later.entry(o, i), t, g),
            );
        later.ran_region_once(acts, r, entry, t, fuel, g);
    }
}

impl CFToLLVM {
    /// Lowering one operation adds nothing to what the program around it means. Take a region
    /// that is not one of the operation, such as the body of the function that it is in. If,
    /// after the lowering, a run of that region, from its start, comes to an end, then, before
    /// the lowering, from a state that agrees, it did so too: in a state that agrees, at the same
    /// operation, which was handed the same numbers. Branches stay in their regions, and the
    /// regions of the operation end at the end of their last blocks alone.
    pub proof fn lowering_adds_nothing(
        ir: Ir,
        op: OpId,
        acts: spec_fn(OpId, Seq<int>, int) -> (Seq<int>, int),
        o: OpId,
        i: int,
        s: State,
        t: State,
        fuel: nat,
    )
        requires
            ir.wf(),
            ir.ops.contains_key(op),
            CFToLLVM::lowerable(ir, op),
            CFToLLVM::lowered(ir, op).wf(),
            CFToLLVM::well_used(ir, op),
            ir.branches_stay(),
            ir.ends_last(op),
            ir.outside(o, op),
            ir.has_body(o, i),
            ir.matches_up(CFToLLVM::replacement(ir, op), s, t),
            CFToLLVM::lowered(ir, op).ran_region(
                acts,
                ir.ops[o].regions[i],
                CFToLLVM::lowered(ir, op).entry(o, i),
                t,
                fuel,
            ) is Some,
        ensures
            exists|f: nat|
                {
                    let end = #[trigger] ir.ran_region(
                        acts,
                        ir.ops[o].regions[i],
                        ir.entry(o, i),
                        s,
                        f,
                    );
                    end is Some && ir.same_end(
                        CFToLLVM::lowered(ir, op),
                        CFToLLVM::replacement(ir, op),
                        end->0,
                        CFToLLVM::lowered(ir, op).ran_region(
                            acts,
                            ir.ops[o].regions[i],
                            CFToLLVM::lowered(ir, op).entry(o, i),
                            t,
                            fuel,
                        ),
                    )
                },
    {
        let after = CFToLLVM::lowered(ir, op);
        let way = CFToLLVM::replacement(ir, op);
        match ir.ops[op].kind {
            OpKind::CfBr => {
                let this = BrOp { op };
                this.replaced(ir, acts);
                assert forall|x: State| #[trigger]
                    ir.led(acts, op, x) == after.led(acts, ir.op_at(0), x) by {
                    this.led_kept(ir, acts, x);
                }
                ir.swap_matched(after, op, acts);
            },
            OpKind::CfCondBr => {
                let this = CondBrOp { op };
                this.replaced(ir, acts);
                assert forall|x: State| #[trigger]
                    ir.led(acts, op, x) == after.led(acts, ir.op_at(0), x) by {
                    this.led_kept(ir, acts, x);
                }
                ir.swap_matched(after, op, acts);
            },
            OpKind::CfFor => {
                (ForOp { op }).matched(ir, acts);
            },
            OpKind::CfNDFor => {
                (NDForOp { op }).matched(ir, acts);
            },
            OpKind::CfExecuteRegion => {
                (ExecuteRegionOp { op }).matched(ir, acts);
            },
            OpKind::CfIf => {
                (IfOp { op }).matched(ir, acts);
            },
            _ => {},
        }
        ir.run_matches_back(after, way, acts, o, i, s, t, fuel);
    }
}

} // verus!
