//! Lowering operations that run a region once keeps what they mean.

use crate::cf::ops::{ExecuteRegionOp, IfOp};
use crate::cf::semantics::{Arrival, State};
use crate::ir::model::Ir;
use crate::ir::types::{BlockId, OpId, RegionId, Value};
use vstd::prelude::*;

verus! {

impl Ir {
    /// Where a region ends with a branch to a block that was not there before, in place of an
    /// operation that yields, the step from its last block leads to that block, with what was
    /// yielded.
    proof fn leave_step(
        self,
        later: Ir,
        op: OpId,
        region: RegionId,
        now: RegionId,
        leave: OpId,
        dest: BlockId,
        acts: spec_fn(OpId, Seq<int>, int) -> (Seq<int>, int),
        end: State,
        u: State,
        fuel: nat,
    ) -> (to: State)
        requires
            self.wf(),
            !self.blocks.contains_key(dest),
            later.blocks.contains_key(dest),
            later.blocks[dest].parent == now,
            ({
                let exit = self.regions[region].blocks.last();
                let ops = self.blocks[exit].ops;
                &&& self.ops.contains_key(ops.last())
                &&& self.spares(ops.last(), op)
                &&& later.blocks[exit].ops == ops.drop_last().push(leave)
                &&& later.ops[leave].kind is LlvmBr
                &&& later.ops[leave].successors == seq![dest]
                &&& later.ops[leave].operands == self.ops[ops.last()].operands
                &&& later.ran_all(acts, ops.drop_last(), u, fuel) is Some
                &&& self.agree(op, end, later.ran_all(acts, ops.drop_last(), u, fuel)->0)
            }),
        ensures
            ({
                let exit = self.regions[region].blocks.last();
                let yields = end.read(self.ops[self.blocks[exit].ops.last()].operands);
                &&& later.reaches(acts, now, exit, u, dest, to)
                &&& self.agree_behind(op, dest, 0, end.with_results(op, yields), to)
            }),
    {
        let exit = self.regions[region].blocks.last();
        let ops = self.blocks[exit].ops;
        let y = self.ops[ops.last()];
        let late = later.blocks[exit].ops;
        assert(late.drop_last() =~= ops.drop_last());
        assert(late.last() == leave);
        let x = later.ran_all(acts, ops.drop_last(), u, fuel)->0;
        self.operands_alike(ops.last(), op, end, x);
        let yields = end.read(y.operands);
        let to = x.with_args(dest, yields);
        assert(later.stepped(acts, exit, u, fuel) == Some(Arrival { block: dest, state: to }));
        later.step_reaches(acts, now, exit, u, fuel, dest, to);
        let done = end.with_results(op, yields);
        assert forall|v: Value| #[trigger] self.has_value(v) implies (done.values)(v) == (
        to.values)(Ir::substituted(v, op, dest, 0)) by {}
        to
    }

    /// If a region runs to its end, and is left by a branch in place of the operation that
    /// yields, then, once control is in the region, it gets to the target of that branch.
    proof fn through_region(
        self,
        later: Ir,
        op: OpId,
        i: int,
        now: RegionId,
        leave: OpId,
        dest: BlockId,
        acts: spec_fn(OpId, Seq<int>, int) -> (Seq<int>, int),
        s: State,
        t: State,
        fuel: nat,
    ) -> (to: State)
        requires
            self.wf(),
            self.placed(op),
            !self.ops[op].regions.contains(self.blocks[self.holder(op)].parent),
            self.has_exit_op(op, i),
            self.ops[self.exit_op(op, i)].kind is CfYield,
            !self.blocks.contains_key(dest),
            later.blocks.contains_key(dest),
            later.blocks[dest].parent == now,
            self.used_only_behind(op),
            self.same_beside(later, op),
            self.moved_region(later, self.ops[op].regions[i], now),
            ({
                let exit = self.exit(op, i);
                let y = self.exit_op(op, i);
                &&& later.blocks[exit].ops == self.blocks[exit].ops.drop_last().push(leave)
                &&& later.ops[leave].kind is LlvmBr
                &&& later.ops[leave].successors == seq![dest]
                &&& later.ops[leave].operands == self.ops[y].operands
            }),
            self.agree(op, s, t),
            self.running(acts, op, i, fuel)(s) is Some,
        ensures
            ({
                let end = self.running(acts, op, i, fuel)(s)->0;
                let yields = end.read(self.ops[self.exit_op(op, i)].operands);
                &&& later.reaches(acts, now, self.entry(op, i), t, dest, to)
                &&& self.agree_behind(op, dest, 0, end.with_results(op, yields), to)
            }),
    {
        self.entry_exit_in_range(op, i);
        let region = self.ops[op].regions[i];
        let entry = self.entry(op, i);
        let exit = self.exit(op, i);
        let ops = self.blocks[exit].ops;
        assert(self.ops[op].regions.contains(region));
        assert(self.clear(self.blocks[exit].ops[ops.len() - 1], op));
        assert(self.clear_to(self.exit_op(op, i), op, 0));
        let u = self.body_alike(later, op, acts, i, now, entry, s, t, fuel);
        let end = self.running(acts, op, i, fuel)(s)->0;
        let to = self.leave_step(later, op, region, now, leave, dest, acts, end, u, fuel);
        later.reaches_on(acts, now, entry, t, exit, u, dest, to);
        to
    }
}

impl ExecuteRegionOp {
    /// What the lowering leaves as it is: all code beside the operation, and its region but for
    /// what ends it.
    proof fn code_kept(self, ir: Ir)
        requires
            ir.wf(),
            self.lowerable(ir),
            self.lowered(ir).wf(),
            ir.used_only_behind(self.op),
        ensures
            !ir.ops[self.op].regions.contains(ir.blocks[ir.holder(self.op)].parent),
            ir.same_beside(self.lowered(ir), self.op),
            ir.moved_region(
                self.lowered(ir),
                self.body(ir),
                ir.blocks[ir.holder(self.op)].parent,
            ),
            !ir.blocks.contains_key(self.continuation(ir)),
            self.lowered(ir).blocks.contains_key(self.continuation(ir)),
            self.lowered(ir).blocks[self.continuation(ir)].parent == ir.blocks[ir.holder(
                self.op,
            )].parent,
            ({
                let after = self.lowered(ir);
                let exit = self.exit(ir);
                let leave = self.leave(ir);
                &&& after.blocks[exit].ops == ir.blocks[exit].ops.drop_last().push(leave)
                &&& after.ops[leave].kind is LlvmBr
                &&& after.ops[leave].successors == seq![self.continuation(ir)]
                &&& after.ops[leave].operands == ir.ops[self.yield_op(ir)].operands
            }),
            ({
                let pre = ir.holder(self.op);
                let first = ir.blocks[pre].ops.take(ir.position(self.op));
                let ops = self.lowered(ir).blocks[pre].ops;
                &&& ops.drop_last() == first
                &&& ops.len() > 0
                &&& ops.last() == self.enter(ir)
            }),
    {
        let after = self.lowered(ir);
        let cont = self.continuation(ir);
        let pre = ir.holder(self.op);
        let now = ir.blocks[pre].parent;
        let exit = self.exit(ir);
        let y = self.yield_op(ir);
        assert(forall|o: OpId| ir.ops.contains_key(o) ==> o < ir.next_op) by {
            reveal(Ir::wf);
        }
        assert(forall|b: BlockId| ir.blocks.contains_key(b) ==> b < ir.next_block) by {
            reveal(Ir::wf);
        }
        assert(after.next_op <= usize::MAX && after.next_block <= usize::MAX) by {
            reveal(Ir::wf);
        }
        ir.entry_exit_in_range(self.op, 0);
        ir.position_in_range(self.op);
        assert(ir.ops[self.op].regions.contains(self.body(ir)));
        assert(ir.ends(y, self.op));
        assert(forall|r: RegionId| #[trigger]
            ir.regions.contains_key(r) && ir.regions[r].parent == self.op ==> r == self.body(
                ir,
            )) by {
            reveal(Ir::wf);
        }
        assert(forall|b: BlockId| #[trigger]
            ir.blocks.contains_key(b) ==> ir.regions.contains_key(ir.blocks[b].parent)) by {
            reveal(Ir::wf);
        }
        assert forall|o: OpId| #[trigger]
            ir.ops.contains_key(o) && o != self.op && !ir.ends(o, self.op) && ir.spares(
                o,
                self.op,
            ) implies ir.same_op(after, o) by {
            Ir::substituted_same(ir.ops[o].operands, self.op, cont, 0);
        }
        assert(ir.same_beside(after, self.op));
        assert(ir.moved_region(after, self.body(ir), now));
        assert(after.blocks.contains_key(cont) && after.blocks[cont].parent == now);
        let last = ir.blocks[exit].ops[ir.blocks[exit].ops.len() - 1];
        assert(ir.clear(last, self.op));
        assert(ir.clear_to(last, self.op, 0));
        Ir::substituted_same(ir.ops[y].operands, self.op, cont, 0);
        let first = ir.blocks[pre].ops.take(ir.position(self.op));
        assert(after.blocks[pre].ops.drop_last() =~= first);
    }

    /// If control gets behind the operation, from the start of the block that holds it, then,
    /// from there, in a state that agrees, it gets to the continuation, in a state that agrees;
    /// the arguments of the continuation are the results of the operation.
    pub proof fn lowering_keeps_meaning(
        self,
        ir: Ir,
        acts: spec_fn(OpId, Seq<int>, int) -> (Seq<int>, int),
        s: State,
        t: State,
        fuel: nat,
    )
        requires
            ir.wf(),
            self.lowerable(ir),
            self.lowered(ir).wf(),
            ir.ops[self.op].kind is CfExecuteRegion,
            ir.used_only_behind(self.op),
            ir.agree(self.op, s, t),
            ir.ran_through(acts, self.op, s, fuel) is Some,
        ensures
            exists|u: State|
                {
                    &&& #[trigger] self.lowered(ir).reaches(
                        acts,
                        ir.blocks[ir.holder(self.op)].parent,
                        ir.holder(self.op),
                        t,
                        self.continuation(ir),
                        u,
                    )
                    &&& ir.agree_behind(
                        self.op,
                        self.continuation(ir),
                        0,
                        ir.ran_through(acts, self.op, s, fuel)->0,
                        u,
                    )
                },
    {
        let after = self.lowered(ir);
        let cont = self.continuation(ir);
        let pre = ir.holder(self.op);
        let now = ir.blocks[pre].parent;
        let entry = self.entry(ir);
        assert(after.next_op <= usize::MAX && after.next_block <= usize::MAX) by {
            reveal(Ir::wf);
        }
        self.code_kept(ir);
        ir.entry_exit_in_range(self.op, 0);
        ir.others_stand(self.op);
        ir.ran_up_to(acts, self.op, s, fuel);
        let first = ir.blocks[pre].ops.take(ir.position(self.op));
        let x = ir.ran_all(acts, first, s, fuel)->0;
        ir.ran_all_alike(after, self.op, acts, first, s, t, fuel);
        let z = after.ran_all(acts, first, t, fuel)->0;
        let nothing: Seq<Value> = Seq::empty();
        assert(z.read(nothing) =~= Seq::empty());
        let start = x.with_args(entry, Seq::empty());
        let there = z.with_args(entry, Seq::empty());
        assert(after.stepped(acts, pre, t, fuel) == Some(Arrival { block: entry, state: there }));
        after.step_reaches(acts, now, pre, t, fuel, entry, there);
        let to = ir.through_region(
            after,
            self.op,
            0,
            now,
            self.leave(ir),
            cont,
            acts,
            start,
            there,
            fuel,
        );
        after.reaches_on(acts, now, pre, t, entry, there, cont, to);
    }

    /// If control comes to an end after the lowering, from the start of the block that held the
    /// operation, then, from there, in a state that agrees, it got behind the operation.
    pub(crate) proof fn lowering_adds_nothing(
        self,
        ir: Ir,
        acts: spec_fn(OpId, Seq<int>, int) -> (Seq<int>, int),
        s: State,
        t: State,
        fuel: nat,
    )
        requires
            ir.wf(),
            self.lowerable(ir),
            self.lowered(ir).wf(),
            ir.ops[self.op].kind is CfExecuteRegion,
            ir.used_only_behind(self.op),
            ir.branches_stay(),
            ir.ends_last(self.op),
            ir.agree(self.op, s, t),
            self.lowered(ir).ran_region(
                acts,
                ir.blocks[ir.holder(self.op)].parent,
                ir.holder(self.op),
                t,
                fuel,
            ) is Some,
        ensures
            exists|f: nat| #[trigger] ir.ran_through(acts, self.op, s, f) is Some,
    {
        let after = self.lowered(ir);
        let pre = ir.holder(self.op);
        let now = ir.blocks[pre].parent;
        let entry = self.entry(ir);
        let less = (fuel - 1) as nat;
        assert(after.next_op <= usize::MAX && after.next_block <= usize::MAX) by {
            reveal(Ir::wf);
        }
        self.code_kept(ir);
        ir.entry_exit_in_range(self.op, 0);
        ir.others_stand(self.op);
        let first = ir.blocks[pre].ops.take(ir.position(self.op));
        ir.ran_all_alike(after, self.op, acts, first, s, t, less);
        let x = ir.ran_all(acts, first, s, less)->0;
        let z = after.ran_all(acts, first, t, less)->0;
        let nothing: Seq<Value> = Seq::empty();
        assert(z.read(nothing) =~= Seq::empty());
        let start = x.with_args(entry, Seq::empty());
        let there = z.with_args(entry, Seq::empty());
        let shape = ir.blocks[self.exit(ir)].ops.drop_last();
        assert(shape.push(self.leave(ir)).take(shape.len() as int) =~= shape);
        ir.body_back(after, self.op, acts, 0, now, entry, start, there, less);
        ir.ran_through_to(acts, self.op, s, less);
    }
}

impl IfOp {
    /// What the lowering leaves as it is: all code beside the operation, and its regions but
    /// for what ends them.
    proof fn code_kept(self, ir: Ir)
        requires
            ir.wf(),
            self.lowerable(ir),
            self.lowered(ir).wf(),
            ir.used_only_behind(self.op),
        ensures
            !ir.ops[self.op].regions.contains(ir.blocks[ir.holder(self.op)].parent),
            ir.same_beside(self.lowered(ir), self.op),
            self.lowered(ir).blocks.contains_key(self.continuation(ir)),
            self.lowered(ir).blocks[self.continuation(ir)].parent == ir.blocks[ir.holder(
                self.op,
            )].parent,
            forall|i: int|
                #![trigger self.region(ir, i)]
                i == 0 || (i == 1 && self.has_else(ir)) ==> {
                    let exit = self.exit(ir, i);
                    let leave = if i == 0 { self.leave_then(ir) } else { self.leave_else(ir) };
                    let after = self.lowered(ir);
                    &&& ir.moved_region(after, self.region(ir, i), ir.blocks[ir.holder(self.op)].parent)
                    &&& after.blocks[exit].ops == ir.blocks[exit].ops.drop_last().push(leave)
                    &&& after.ops[leave].kind is LlvmBr
                    &&& after.ops[leave].successors == seq![self.continuation(ir)]
                    &&& after.ops[leave].operands == ir.ops[self.yield_op(ir, i)].operands
                },
    {
        let after = self.lowered(ir);
        let cont = self.continuation(ir);
        let pre = ir.holder(self.op);
        self.apart(ir);
        assert(after.next_op <= usize::MAX && after.next_block <= usize::MAX) by {
            reveal(Ir::wf);
        }
        ir.position_in_range(self.op);
        ir.entry_exit_in_range(self.op, 0);
        assert(ir.ends(self.yield_op(ir, 0), self.op));
        if self.has_else(ir) {
            ir.entry_exit_in_range(self.op, 1);
            assert(ir.ends(self.yield_op(ir, 1), self.op));
        }
        assert(forall|r: RegionId| #[trigger]
            ir.regions.contains_key(r) && ir.regions[r].parent == self.op
                ==> ir.ops[self.op].regions.contains(r)) by {
            reveal(Ir::wf);
        }
        assert(forall|b: BlockId| #[trigger]
            ir.blocks.contains_key(b) ==> ir.regions.contains_key(ir.blocks[b].parent)) by {
            reveal(Ir::wf);
        }
        assert forall|r: RegionId| #[trigger] ir.ops[self.op].regions.contains(r) implies r
            == self.region(ir, 0) || (self.has_else(ir) && r == self.region(ir, 1)) by {}
        assert forall|o: OpId| #[trigger]
            ir.ops.contains_key(o) && o != self.op && !ir.ends(o, self.op) && ir.spares(
                o,
                self.op,
            ) implies ir.same_op(after, o) by {
            Ir::substituted_same(ir.ops[o].operands, self.op, cont, 0);
        }
        assert forall|i: int|
            #![trigger self.region(ir, i)]
            i == 0 || (i == 1 && self.has_else(ir)) implies {
            let exit = self.exit(ir, i);
            let leave = if i == 0 { self.leave_then(ir) } else { self.leave_else(ir) };
            &&& ir.moved_region(after, self.region(ir, i), ir.blocks[ir.holder(self.op)].parent)
            &&& after.blocks[exit].ops == ir.blocks[exit].ops.drop_last().push(leave)
            &&& after.ops[leave].kind is LlvmBr
            &&& after.ops[leave].successors == seq![cont]
            &&& after.ops[leave].operands == ir.ops[self.yield_op(ir, i)].operands
        } by {
            let exit = self.exit(ir, i);
            let y = self.yield_op(ir, i);
            ir.entry_exit_in_range(self.op, i);
            assert(ir.ops[self.op].regions.contains(self.region(ir, i)));
            assert(ir.clear(ir.blocks[exit].ops[ir.blocks[exit].ops.len() - 1], self.op));
            assert(ir.clear_to(y, self.op, 0));
            Ir::substituted_same(ir.ops[y].operands, self.op, cont, 0);
        }
    }

    /// If control gets behind the operation, from the start of the block that holds it, then,
    /// from there, in a state that agrees, it gets to the continuation, in a state that agrees;
    /// the arguments of the continuation are the results of the operation.
    pub proof fn lowering_keeps_meaning(
        self,
        ir: Ir,
        acts: spec_fn(OpId, Seq<int>, int) -> (Seq<int>, int),
        s: State,
        t: State,
        fuel: nat,
    )
        requires
            ir.wf(),
            self.lowerable(ir),
            self.lowered(ir).wf(),
            ir.ops[self.op].kind is CfIf,
            ir.used_only_behind(self.op),
            self.has_else(ir) || ir.ops[self.op].results.len() == 0,
            ir.agree(self.op, s, t),
            ir.ran_through(acts, self.op, s, fuel) is Some,
        ensures
            exists|u: State|
                {
                    &&& #[trigger] self.lowered(ir).reaches(
                        acts,
                        ir.blocks[ir.holder(self.op)].parent,
                        ir.holder(self.op),
                        t,
                        self.continuation(ir),
                        u,
                    )
                    &&& ir.agree_behind(
                        self.op,
                        self.continuation(ir),
                        0,
                        ir.ran_through(acts, self.op, s, fuel)->0,
                        u,
                    )
                },
    {
        let after = self.lowered(ir);
        let cont = self.continuation(ir);
        let pre = ir.holder(self.op);
        let now = ir.blocks[pre].parent;
        self.apart(ir);
        self.code_kept(ir);
        assert(after.next_op <= usize::MAX && after.next_block <= usize::MAX) by {
            reveal(Ir::wf);
        }
        ir.position_in_range(self.op);
        ir.operands_there(self.op);
        ir.others_stand(self.op);
        ir.ran_up_to(acts, self.op, s, fuel);
        let first = ir.blocks[pre].ops.take(ir.position(self.op));
        let x = ir.ran_all(acts, first, s, fuel)->0;
        ir.ran_all_alike(after, self.op, acts, first, s, t, fuel);
        let z = after.ran_all(acts, first, t, fuel)->0;
        let decide = self.decide(ir);
        let ops = after.blocks[pre].ops;
        assert(ops.drop_last() =~= first);
        assert(ops.last() == decide);
        let condition = self.condition(ir);
        assert(condition == ir.ops[self.op].operands[0]);
        assert(ir.has_value(condition) && !Ir::is_result(condition, self.op));
        let nothing: Seq<Value> = Seq::empty();
        Ir::cond_br_parts(condition, self.entry(ir, 0), nothing, self.false_dest(ir), nothing);
        let view = after.ops[decide];
        assert(view.segment(1) == nothing);
        assert(view.segment(2) == nothing);
        assert(view.has_segment(2));
        assert(view.operands[0] == condition);
        assert(z.read(nothing) =~= Seq::empty());
        let i = if (x.values)(condition) != 0 { 0int } else { 1int };
        if i == 1 && !self.has_else(ir) {
            let to = z.with_args(cont, Seq::empty());
            assert(after.stepped(acts, pre, t, fuel) == Some(Arrival { block: cont, state: to }));
            after.step_reaches(acts, now, pre, t, fuel, cont, to);
            assert forall|v: Value| #[trigger] ir.has_value(v) implies (x.values)(v) == (
            to.values)(Ir::substituted(v, self.op, cont, 0)) by {}
        } else {
            let entry = self.entry(ir, i);
            ir.entry_exit_in_range(self.op, i);
            let start = x.with_args(entry, Seq::empty());
            let there = z.with_args(entry, Seq::empty());
            assert(after.stepped(acts, pre, t, fuel) == Some(Arrival { block: entry, state: there }));
            after.step_reaches(acts, now, pre, t, fuel, entry, there);
            let leave = if i == 0 { self.leave_then(ir) } else { self.leave_else(ir) };
            assert(self.region(ir, i) == ir.ops[self.op].regions[i]);
            let to = ir.through_region(
                after,
                self.op,
                i,
                now,
                leave,
                cont,
                acts,
                start,
                there,
                fuel,
            );
            after.reaches_on(acts, now, pre, t, entry, there, cont, to);
        }
    }

    /// If control comes to an end after the lowering, from the start of the block that held the
    /// operation, then, from there, in a state that agrees, it got behind the operation.
    pub(crate) proof fn lowering_adds_nothing(
        self,
        ir: Ir,
        acts: spec_fn(OpId, Seq<int>, int) -> (Seq<int>, int),
        s: State,
        t: State,
        fuel: nat,
    )
        requires
            ir.wf(),
            self.lowerable(ir),
            self.lowered(ir).wf(),
            ir.ops[self.op].kind is CfIf,
            ir.used_only_behind(self.op),
            ir.branches_stay(),
            ir.ends_last(self.op),
            ir.agree(self.op, s, t),
            self.lowered(ir).ran_region(
                acts,
                ir.blocks[ir.holder(self.op)].parent,
                ir.holder(self.op),
                t,
                fuel,
            ) is Some,
        ensures
            exists|f: nat| #[trigger] ir.ran_through(acts, self.op, s, f) is Some,
    {
        let after = self.lowered(ir);
        let pre = ir.holder(self.op);
        let now = ir.blocks[pre].parent;
        let less = (fuel - 1) as nat;
        self.apart(ir);
        self.code_kept(ir);
        assert(after.next_op <= usize::MAX && after.next_block <= usize::MAX) by {
            reveal(Ir::wf);
        }
        ir.position_in_range(self.op);
        ir.operands_there(self.op);
        ir.others_stand(self.op);
        let first = ir.blocks[pre].ops.take(ir.position(self.op));
        let decide = self.decide(ir);
        let ops = after.blocks[pre].ops;
        assert(ops.drop_last() =~= first);
        assert(ops.last() == decide);
        ir.ran_all_alike(after, self.op, acts, first, s, t, less);
        let x = ir.ran_all(acts, first, s, less)->0;
        let z = after.ran_all(acts, first, t, less)->0;
        let condition = self.condition(ir);
        assert(condition == ir.ops[self.op].operands[0]);
        assert(ir.has_value(condition) && !Ir::is_result(condition, self.op));
        let nothing: Seq<Value> = Seq::empty();
        Ir::cond_br_parts(condition, self.entry(ir, 0), nothing, self.false_dest(ir), nothing);
        let view = after.ops[decide];
        assert(view.segment(1) == nothing);
        assert(view.segment(2) == nothing);
        assert(view.has_segment(2));
        assert(view.operands[0] == condition);
        assert(z.read(nothing) =~= Seq::empty());
        let i = if (x.values)(condition) != 0 { 0int } else { 1int };
        if i == 0 || self.has_else(ir) {
            let entry = self.entry(ir, i);
            ir.entry_exit_in_range(self.op, i);
            let start = x.with_args(entry, Seq::empty());
            let there = z.with_args(entry, Seq::empty());
            assert(self.region(ir, i) == ir.ops[self.op].regions[i]);
            let leave = if i == 0 { self.leave_then(ir) } else { self.leave_else(ir) };
            let shape = ir.blocks[self.exit(ir, i)].ops.drop_last();
            assert(shape.push(leave).take(shape.len() as int) =~= shape);
            ir.body_back(after, self.op, acts, i, now, entry, start, there, less);
        }
        ir.ran_through_to(acts, self.op, s, less);
    }
}

} // verus!
