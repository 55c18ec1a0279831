//! Lowering a branch keeps where control goes.

use crate::cf::ops::{BrOp, CondBrOp, ExecuteRegionOp, ForOp, IfOp, NDForOp};
use crate::cf::semantics::State;
use crate::ir::model::{Ir, OpView};
use crate::ir::types::{BlockId, OpId, OpKind, RegionId};
use vstd::prelude::*;

verus! {

impl ForOp {
    /// The same loop with the same body does the same.
    pub(crate) proof fn rounds_same(
        self,
        ir: Ir,
        later: Ir,
        run: spec_fn(State) -> Option<State>,
        upper: int,
        step: int,
        iv: int,
        iters: Seq<int>,
        s: State,
        count: nat,
    )
        requires
            self.entry(later) == self.entry(ir),
            forall|t: State|
                (#[trigger] run(t)) is Some ==> later.ops[self.yield_op(later)].operands
                    == ir.ops[self.yield_op(ir)].operands,
        ensures
            self.rounds(later, run, upper, step, iv, iters, s, count) == self.rounds(
                ir,
                run,
                upper,
                step,
                iv,
                iters,
                s,
                count,
            ),
        decreases count,
    {
        if iv < upper && count > 0 {
            let start = s.with_args(self.entry(ir), seq![iv] + iters);
            if run(start) is Some {
                let end = run(start)->0;
                self.rounds_same(
                    ir,
                    later,
                    run,
                    upper,
                    step,
                    State::sum(iv, step),
                    end.read(ir.ops[self.yield_op(ir)].operands),
                    end,
                    (count - 1) as nat,
                );
            }
        }
    }
}

impl NDForOp {
    /// The same loops with the same body do the same.
    pub(crate) proof fn nest_same(
        self,
        ir: Ir,
        later: Ir,
        run: spec_fn(State) -> Option<State>,
        lowers: Seq<int>,
        uppers: Seq<int>,
        steps: Seq<int>,
        ivs: Seq<int>,
        s: State,
        count: nat,
    )
        requires
            self.entry(later) == self.entry(ir),
            self.dims(later) == self.dims(ir),
        ensures
            self.nest(later, run, lowers, uppers, steps, ivs, s, count) == self.nest(
                ir,
                run,
                lowers,
                uppers,
                steps,
                ivs,
                s,
                count,
            ),
        decreases count, 1nat,
    {
        if ivs.len() < self.dims(ir) {
            let iv = lowers[ivs.len() as int];
            self.along_same(ir, later, run, lowers, uppers, steps, ivs, iv, s, count);
        }
    }

    proof fn along_same(
        self,
        ir: Ir,
        later: Ir,
        run: spec_fn(State) -> Option<State>,
        lowers: Seq<int>,
        uppers: Seq<int>,
        steps: Seq<int>,
        ivs: Seq<int>,
        iv: int,
        s: State,
        count: nat,
    )
        requires
            self.entry(later) == self.entry(ir),
            self.dims(later) == self.dims(ir),
        ensures
            self.along(later, run, lowers, uppers, steps, ivs, iv, s, count) == self.along(
                ir,
                run,
                lowers,
                uppers,
                steps,
                ivs,
                iv,
                s,
                count,
            ),
        decreases count, 0nat,
    {
        let d = ivs.len() as int;
        if iv < uppers[d] && count > 0 {
            let c = (count - 1) as nat;
            self.nest_same(ir, later, run, lowers, uppers, steps, ivs.push(iv), s, c);
            let end = self.nest(ir, run, lowers, uppers, steps, ivs.push(iv), s, c);
            if end is Some {
                let next = State::sum(iv, steps[d]);
                self.along_same(ir, later, run, lowers, uppers, steps, ivs, next, end->0, c);
            }
        }
    }
}

impl Ir {
    /// Can the branch `op`, at the end of its block, be swapped for one that leads to the same
    /// places?
    spec fn leads_alike(
        self,
        acts: spec_fn(OpId, Seq<int>, int) -> (Seq<int>, int),
        op: OpId,
        view: OpView,
    ) -> bool {
        &&& self.wf()
        &&& self.swappable(op)
        &&& self.next_op < usize::MAX
        &&& self.blocks[self.holder(op)].ops.last() == op
        &&& !self.ops[op].kind.closes()
        &&& !view.kind.closes()
        &&& forall|t: State| #[trigger]
            self.led(acts, op, t) == self.swapped(op, view).led(acts, self.op_at(0), t)
    }

    /// In a block, swapping a branch changes nothing but, maybe, the last operation.
    proof fn swapped_block(
        self,
        op: OpId,
        view: OpView,
        acts: spec_fn(OpId, Seq<int>, int) -> (Seq<int>, int),
        block: BlockId,
    )
        requires
            self.leads_alike(acts, op, view),
            self.blocks.contains_key(block),
            self.blocks[block].ops.len() > 0,
        ensures
            ({
                let after = self.swapped(op, view);
                let ops = self.blocks[block].ops;
                let now = after.blocks[block].ops;
                &&& now.len() == ops.len()
                &&& now.drop_last() == ops.drop_last()
                &&& forall|i: int|
                    0 <= i < ops.len() - 1 ==> self.ops.contains_key(#[trigger] ops[i]) && ops[i]
                        != op
                &&& forall|t: State| #[trigger]
                    after.led(acts, now.last(), t) == self.led(acts, ops.last(), t)
                &&& after.ops[now.last()].kind.closes() <==> self.ops[ops.last()].kind.closes()
                &&& self.ops[ops.last()].kind.closes() ==> now.last() == ops.last()
                    && after.ops[now.last()] == self.ops[ops.last()]
            }),
    {
        let after = self.swapped(op, view);
        self.position_in_range(op);
        assert(!self.ops.contains_key(self.op_at(0))) by {
            reveal(Ir::wf);
        }
        let holder = self.holder(op);
        let ops = self.blocks[block].ops;
        let now = after.blocks[block].ops;
        self.position_unique(holder, self.blocks[holder].ops.len() - 1);
        self.position_unique(block, ops.len() - 1);
        assert(now.drop_last() =~= ops.drop_last());
        assert forall|i: int| 0 <= i < ops.len() - 1 implies self.ops.contains_key(
            #[trigger] ops[i],
        ) && ops[i] != op by {
            self.position_unique(block, i);
        }
        if block != holder {
            assert(ops.last() != op);
            assert(now.last() == ops.last());
            assert(after.ops[ops.last()] == self.ops[ops.last()]);
        } else {
            assert(now.last() == self.op_at(0));
        }
    }

    /// Any other operation does the same as before.
    proof fn swapped_ran(
        self,
        op: OpId,
        view: OpView,
        acts: spec_fn(OpId, Seq<int>, int) -> (Seq<int>, int),
        o: OpId,
        s: State,
        fuel: nat,
    )
        requires
            self.leads_alike(acts, op, view),
            self.ops.contains_key(o),
            o != op,
        ensures
            self.swapped(op, view).ran(acts, o, s, fuel) == self.ran(acts, o, s, fuel),
        decreases fuel, 3nat, 0nat,
    {
        let after = self.swapped(op, view);
        assert(!self.ops.contains_key(self.op_at(0))) by {
            reveal(Ir::wf);
        }
        assert(after.ops[o] == self.ops[o]);
        let run = self.running(acts, o, 0, fuel);
        match self.ops[o].kind {
            OpKind::CfFor => {
                let this = ForOp { op: o };
                self.swapped_running(op, view, acts, o, 0, fuel);
                if this.has_bounds(self, 3) && self.ops[o].has_segment(1) && self.has_body(o, 0) {
                    this.rounds_same(
                        self,
                        after,
                        run,
                        (s.values)(this.upper_bound(self)),
                        (s.values)(this.step(self)),
                        (s.values)(this.lower_bound(self)),
                        s.read(this.iter_args_init(self)),
                        s,
                        fuel,
                    );
                }
            },
            OpKind::CfNDFor => {
                let this = NDForOp { op: o };
                self.swapped_running(op, view, acts, o, 0, fuel);
                this.nest_same(
                    self,
                    after,
                    run,
                    s.read(this.lower_bounds(self)),
                    s.read(this.upper_bounds(self)),
                    s.read(this.steps(self)),
                    Seq::empty(),
                    s,
                    fuel,
                );
            },
            OpKind::CfExecuteRegion => {
                self.swapped_running(op, view, acts, o, 0, fuel);
                let start = s.with_args((ExecuteRegionOp { op: o }).entry(self), Seq::empty());
                assert(run(start) is Some || run(start) is None);
            },
            OpKind::CfIf => {
                let this = IfOp { op: o };
                self.swapped_running(op, view, acts, o, 0, fuel);
                self.swapped_running(op, view, acts, o, 1, fuel);
                let start = s.with_args(this.entry(self, 0), Seq::empty());
                let other = s.with_args(this.entry(self, 1), Seq::empty());
                assert(run(start) is Some || run(start) is None);
                assert(self.running(acts, o, 1, fuel)(other) is Some
                    || self.running(acts, o, 1, fuel)(other) is None);
            },
            _ => {},
        }
    }

    proof fn swapped_running(
        self,
        op: OpId,
        view: OpView,
        acts: spec_fn(OpId, Seq<int>, int) -> (Seq<int>, int),
        o: OpId,
        i: int,
        fuel: nat,
    )
        requires
            self.leads_alike(acts, op, view),
            self.ops.contains_key(o),
            o != op,
        ensures
            ({
                let after = self.swapped(op, view);
                let run = self.running(acts, o, i, fuel);
                &&& after.running(acts, o, i, fuel) == run
                &&& after.has_body(o, i) == self.has_body(o, i)
                &&& after.entry(o, i) == self.entry(o, i)
                &&& forall|t: State|
                    (#[trigger] run(t)) is Some ==> after.ops[after.exit_op(o, i)].operands
                        == self.ops[self.exit_op(o, i)].operands
            }),
        decreases fuel, 2nat, 0nat,
    {
        let after = self.swapped(op, view);
        let run = self.running(acts, o, i, fuel);
        assert(!self.ops.contains_key(self.op_at(0))) by {
            reveal(Ir::wf);
        }
        assert(after.ops[o] == self.ops[o]);
        if self.has_body(o, i) {
            self.entry_exit_in_range(o, i);
        }
        let region = self.ops[o].regions[i];
        let entry = self.entry(o, i);
        assert forall|t: State| #[trigger] after.running(acts, o, i, fuel)(t) == run(t) by {
            if self.has_body(o, i) {
                self.swapped_region(op, view, acts, region, entry, t, fuel);
                if self.ran_region(acts, region, entry, t, fuel) is Some {
                    self.ran_region_ends(acts, region, entry, t, fuel);
                    if self.blocks[self.exit(o, i)].ops.len() > 0 {
                        self.swapped_block(op, view, acts, self.exit(o, i));
                    }
                }
            }
        }
        assert(after.running(acts, o, i, fuel) =~= run);
        assert forall|t: State| (#[trigger] run(t)) is Some implies after.ops[after.exit_op(
            o,
            i,
        )].operands == self.ops[self.exit_op(o, i)].operands by {
            self.ran_region_ends(acts, region, entry, t, fuel);
            self.swapped_block(op, view, acts, self.exit(o, i));
        }
    }

    proof fn swapped_ran_all(
        self,
        op: OpId,
        view: OpView,
        acts: spec_fn(OpId, Seq<int>, int) -> (Seq<int>, int),
        ops: Seq<OpId>,
        s: State,
        fuel: nat,
    )
        requires
            self.leads_alike(acts, op, view),
            forall|i: int|
                0 <= i < ops.len() ==> self.ops.contains_key(#[trigger] ops[i]) && ops[i] != op,
        ensures
            self.swapped(op, view).ran_all(acts, ops, s, fuel) == self.ran_all(acts, ops, s, fuel),
        decreases fuel, 4nat, ops.len(),
    {
        if ops.len() > 0 {
            let rest = ops.drop_last();
            assert forall|i: int| 0 <= i < rest.len() implies self.ops.contains_key(
                #[trigger] rest[i],
            ) && rest[i] != op by {
                assert(rest[i] == ops[i]);
            }
            self.swapped_ran_all(op, view, acts, rest, s, fuel);
            let t = self.ran_all(acts, rest, s, fuel);
            assert(ops.last() == ops[ops.len() - 1]);
            if t is Some {
                self.swapped_ran(op, view, acts, ops.last(), t->0, fuel);
            }
        }
    }

    proof fn swapped_region(
        self,
        op: OpId,
        view: OpView,
        acts: spec_fn(OpId, Seq<int>, int) -> (Seq<int>, int),
        region: RegionId,
        block: BlockId,
        s: State,
        fuel: nat,
    )
        requires
            self.leads_alike(acts, op, view),
            self.blocks.contains_key(block),
        ensures
            self.swapped(op, view).ran_region(acts, region, block, s, fuel) == self.ran_region(
                acts,
                region,
                block,
                s,
                fuel,
            ),
        decreases fuel, 1nat, 0nat,
    {
        let after = self.swapped(op, view);
        let ops = self.blocks[block].ops;
        let now = after.blocks[block].ops;
        self.position_in_range(op);
        assert(now.len() == ops.len());
        if fuel > 0 && ops.len() > 0 {
            let less = (fuel - 1) as nat;
            let rest = ops.drop_last();
            self.swapped_block(op, view, acts, block);
            assert forall|i: int| 0 <= i < rest.len() implies self.ops.contains_key(
                #[trigger] rest[i],
            ) && rest[i] != op by {
                assert(rest[i] == ops[i]);
            }
            self.swapped_ran_all(op, view, acts, rest, s, less);
            let t = self.ran_all(acts, rest, s, less);
            if t is Some && !self.ops[ops.last()].kind.closes() {
                assert(after.led(acts, now.last(), t->0) == self.led(acts, ops.last(), t->0));
                let to = self.led(acts, ops.last(), t->0);
                if to is Some && self.blocks.contains_key(to->0.block) {
                    self.swapped_region(
                        op,
                        view,
                        acts,
                        region,
                        to->0.block,
                        to->0.state,
                        less,
                    );
                }
            }
        }
    }

    /// The step from the block that held a branch, which was swapped for one that leads to the
    /// same places, is the same as before; and so is that from any other block.
    proof fn swapped_steps_alike(
        self,
        op: OpId,
        view: OpView,
        acts: spec_fn(OpId, Seq<int>, int) -> (Seq<int>, int),
        block: BlockId,
        s: State,
        fuel: nat,
    )
        requires
            self.leads_alike(acts, op, view),
            self.blocks.contains_key(block),
        ensures
            self.swapped(op, view).stepped(acts, block, s, fuel) == self.stepped(
                acts,
                block,
                s,
                fuel,
            ),
    {
        let after = self.swapped(op, view);
        let ops = self.blocks[block].ops;
        let now = after.blocks[block].ops;
        self.position_in_range(op);
        assert(now.len() == ops.len());
        if ops.len() > 0 {
            let rest = ops.drop_last();
            self.swapped_block(op, view, acts, block);
            assert forall|i: int| 0 <= i < rest.len() implies self.ops.contains_key(
                #[trigger] rest[i],
            ) && rest[i] != op by {
                assert(rest[i] == ops[i]);
            }
            self.swapped_ran_all(op, view, acts, rest, s, fuel);
            let t = self.ran_all(acts, rest, s, fuel);
            if t is Some {
                assert(after.led(acts, now.last(), t->0) == self.led(acts, ops.last(), t->0));
            }
        }
    }
}

impl BrOp {
    /// Control goes from every block to where it went before the branch was lowered.
    pub proof fn lowering_keeps_meaning(
        self,
        ir: Ir,
        acts: spec_fn(OpId, Seq<int>, int) -> (Seq<int>, int),
        block: BlockId,
        s: State,
        fuel: nat,
    )
        requires
            ir.wf(),
            self.lowerable(ir),
            self.lowered(ir).wf(),
            ir.ops[self.op].kind is CfBr,
            ir.blocks[ir.holder(self.op)].ops.last() == self.op,
            ir.blocks.contains_key(block),
        ensures
            self.lowered(ir).stepped(acts, block, s, fuel) == ir.stepped(acts, block, s, fuel),
    {
        assert(self.lowered(ir).next_op <= usize::MAX) by {
            reveal(Ir::wf);
        }
        ir.swapped_steps_alike(
            self.op,
            OpView::llvm_br(ir.ops[self.op].successors[0], ir.ops[self.op].operands),
            acts,
            block,
            s,
            fuel,
        );
    }
}

impl CondBrOp {
    /// Control goes from every block to where it went before the branch was lowered.
    pub proof fn lowering_keeps_meaning(
        self,
        ir: Ir,
        acts: spec_fn(OpId, Seq<int>, int) -> (Seq<int>, int),
        block: BlockId,
        s: State,
        fuel: nat,
    )
        requires
            ir.wf(),
            self.lowerable(ir),
            self.lowered(ir).wf(),
            ir.ops[self.op].kind is CfCondBr,
            ir.blocks[ir.holder(self.op)].ops.last() == self.op,
            ir.blocks.contains_key(block),
        ensures
            self.lowered(ir).stepped(acts, block, s, fuel) == ir.stepped(acts, block, s, fuel),
    {
        assert(self.lowered(ir).next_op <= usize::MAX) by {
            reveal(Ir::wf);
        }
        let op = ir.ops[self.op];
        op.earlier_segment(1, 2);
        op.segment_in_range(1);
        op.segment_in_range(2);
        Ir::cond_br_parts(
            op.operands[0],
            op.successors[0],
            op.segment(1),
            op.successors[1],
            op.segment(2),
        );
        let view = OpView::llvm_cond_br(
            op.operands[0],
            op.successors[0],
            op.segment(1),
            op.successors[1],
            op.segment(2),
        );
        let new = self.lowered(ir).ops[ir.op_at(0)];
        assert(new.segment(1) == op.segment(1));
        assert(new.segment(2) == op.segment(2));
        assert(new.has_segment(2));
        assert(new.operands[0] == op.operands[0]);
        ir.swapped_steps_alike(self.op, view, acts, block, s, fuel);
    }
}

} // verus!
