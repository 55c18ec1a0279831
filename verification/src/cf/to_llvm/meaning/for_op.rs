//! Lowering a loop keeps what it means.

use crate::cf::ops::ForOp;
use crate::cf::semantics::{Arrival, State};
use crate::ir::model::Ir;
use crate::ir::types::{BlockId, OpId, RegionId, Value};
use vstd::prelude::*;

verus! {

impl ForOp {
    /// Do the upper bound, the step and, in each round, the induction variable stay what they
    /// are while the body runs, and does the body yield a value for each of the results?
    pub open spec fn steady(self, ir: Ir) -> bool {
        &&& ir.fixed_in(self.body(ir), self.upper_bound(ir))
        &&& ir.fixed_in(self.body(ir), self.step(ir))
        &&& ir.fixed_in(self.body(ir), self.induction_variable(ir))
        &&& !Ir::is_argument(self.upper_bound(ir), self.entry(ir))
        &&& !Ir::is_argument(self.step(ir), self.entry(ir))
        &&& ir.ops[self.yield_op(ir)].operands.len() == ir.ops[self.op].results.len()
    }

    /// The region that holds the loop.
    pub open spec fn region(self, ir: Ir) -> RegionId {
        ir.blocks[self.pre_header(ir)].parent
    }

    /// What the lowering leaves as it is: all code beside the loop, and its body.
    proof fn code_kept(self, ir: Ir)
        requires
            ir.wf(),
            self.lowerable(ir),
            self.lowered(ir).wf(),
        ensures
            !ir.ops[self.op].regions.contains(ir.blocks[ir.holder(self.op)].parent),
            ir.same_beside(self.lowered(ir), self.op),
            ir.moved_region(self.lowered(ir), self.body(ir), self.region(ir)),
            self.lowered(ir).blocks.contains_key(self.header(ir)),
            self.lowered(ir).blocks[self.header(ir)].parent == self.region(ir),
            self.lowered(ir).blocks.contains_key(self.after(ir)),
            self.lowered(ir).blocks[self.after(ir)].parent == self.region(ir),
    {
        let after = self.lowered(ir);
        let pre = self.pre_header(ir);
        let y = self.yield_op(ir);
        ir.entry_exit_in_range(self.op, 0);
        ir.position_in_range(self.op);
        ir.moved_from_holder(self.op);
        assert(forall|o: OpId| ir.ops.contains_key(o) ==> o < ir.next_op) by {
            reveal(Ir::wf);
        }
        assert(forall|b: BlockId| ir.blocks.contains_key(b) ==> b < ir.next_block) by {
            reveal(Ir::wf);
        }
        assert(after.next_op <= usize::MAX && after.next_block <= usize::MAX) by {
            reveal(Ir::wf);
        }
        assert(forall|r: RegionId| #[trigger]
            ir.regions.contains_key(r) && ir.regions[r].parent == self.op ==> r == self.body(
                ir,
            )) by {
            reveal(Ir::wf);
        }
        assert(forall|b: BlockId| #[trigger]
            ir.blocks.contains_key(b) ==> ir.regions.contains_key(ir.blocks[b].parent)) by {
            reveal(Ir::wf);
        }
        assert(ir.ends(y, self.op));
        assert forall|o: OpId| #[trigger]
            ir.ops.contains_key(o) && o != self.op && !ir.ends(o, self.op) && ir.spares(
                o,
                self.op,
            ) implies ir.same_op(after, o) by {
            Ir::substituted_same(ir.ops[o].operands, self.op, self.header(ir), 1);
            assert(self.all_renamed(ir, ir.ops[o].operands) =~= ir.ops[o].operands.map_values(
                |v: Value| Ir::substituted(v, self.op, self.header(ir), 1),
            ));
        }
    }

    /// A step from the header leads into the body, with the induction variable and the
    /// loop-carried variables, if the induction variable is below the upper bound, and else
    /// behind the loop.
    proof fn header_step(
        self,
        ir: Ir,
        acts: spec_fn(OpId, Seq<int>, int) -> (Seq<int>, int),
        s: State,
        t: State,
        iv: int,
        iters: Seq<int>,
        fuel: nat,
    ) -> (to: State)
        requires
            ir.wf(),
            self.lowerable(ir),
            self.lowered(ir).wf(),
            ir.used_only_behind(self.op),
            ir.agree(self.op, s, t),
            iters.len() == ir.ops[self.op].results.len(),
        ensures
            ({
                let upper = (s.values)(self.upper_bound(ir));
                let h = t.with_args(self.header(ir), seq![iv] + iters);
                &&& iv < upper ==> self.lowered(ir).stepped(
                    acts,
                    self.header(ir),
                    h,
                    fuel,
                ) == Some(
                    Arrival { block: self.entry(ir), state: to },
                ) && ir.agree(
                    self.op,
                    s.with_args(self.entry(ir), seq![iv] + iters),
                    to,
                )
                &&& iv >= upper ==> self.lowered(ir).stepped(
                    acts,
                    self.header(ir),
                    h,
                    fuel,
                ) == Some(
                    Arrival { block: self.after(ir), state: to },
                ) && ir.agree_behind(
                    self.op,
                    self.header(ir),
                    1,
                    s.with_results(self.op, iters),
                    to,
                )
            }),
    {
        let after = self.lowered(ir);
        let op = ir.ops[self.op];
        let header = self.header(ir);
        assert(forall|o: OpId| ir.ops.contains_key(o) ==> o < ir.next_op) by {
            reveal(Ir::wf);
        }
        assert(forall|b: BlockId| ir.blocks.contains_key(b) ==> b < ir.next_block) by {
            reveal(Ir::wf);
        }
        assert(after.next_op <= usize::MAX && after.next_block <= usize::MAX) by {
            reveal(Ir::wf);
        }
        ir.entry_exit_in_range(self.op, 0);
        ir.operands_there(self.op);
        op.earlier_segment(0, 1);
        op.segment_in_range(0);
        op.segment_in_range(1);
        let upper = self.upper_bound(ir);
        assert(upper == op.operands[op.segment_start(0) + 1]);
        assert(ir.has_value(upper) && !Ir::is_result(upper, self.op));
        let numbers = seq![iv] + iters;
        let h = t.with_args(header, numbers);
        let compare = self.compare(ir);
        let decide = self.decide(ir);
        let ops = after.blocks[header].ops;
        assert(ops == seq![compare, decide]);
        assert(ops.drop_last() =~= seq![compare]);
        assert(ops.last() == decide);
        let none: Seq<OpId> = Seq::empty();
        assert(seq![compare].drop_last() =~= none);
        let u = after.ran(acts, compare, h, fuel)->0;
        assert(after.ran_all(acts, none, h, fuel) == Some(h));
        assert(after.ran_all(acts, seq![compare], h, fuel) == Some(u));
        let header_iv = Value::BlockArgument { block: header, idx: 0 };
        assert(self.renamed(ir, upper) == upper);
        assert((h.values)(upper) == (s.values)(upper));
        assert((h.values)(header_iv) == iv);
        let read = h.read(after.ops[compare].operands);
        assert(read[0] == iv && read[1] == (s.values)(upper));
        let decided = Value::OpResult { op: compare, idx: 0 };
        assert((u.values)(decided) == if iv < (s.values)(upper) { 1int } else { 0int });
        let handed = Seq::new(
            self.iter_args_init(ir).len() + 1,
            |i: int| Value::BlockArgument { block: header, idx: i as usize },
        );
        let nothing: Seq<Value> = Seq::empty();
        Ir::cond_br_parts(decided, self.entry(ir), handed, self.after(ir), nothing);
        let view = after.ops[decide];
        assert(view.segment(1) == handed);
        assert(view.segment(2) == nothing);
        assert(view.has_segment(2));
        assert(view.operands[0] == decided);
        assert(u.read(handed) =~= numbers) by {
            assert forall|i: int| 0 <= i < handed.len() implies (u.values)(#[trigger] handed[i])
                == numbers[i] by {}
        }
        let to = after.led(acts, decide, u)->0.state;
        if iv >= (s.values)(upper) {
            let done = s.with_results(self.op, iters);
            assert forall|v: Value| #[trigger] ir.has_value(v) implies (done.values)(v) == (
            to.values)(self.renamed(ir, v)) by {
                if let Value::OpResult { op: o, idx } = v {
                    if o == self.op {
                        assert(numbers[idx + 1] == iters[idx as int]);
                    }
                }
            }
        }
        to
    }

    /// A step from the exit block of the body leads back to the header, with the induction
    /// variable advanced and the yielded values.
    proof fn back_step(
        self,
        ir: Ir,
        acts: spec_fn(OpId, Seq<int>, int) -> (Seq<int>, int),
        end: State,
        u: State,
        fuel: nat,
    ) -> (to: State)
        requires
            ir.wf(),
            self.lowerable(ir),
            self.lowered(ir).wf(),
            ir.used_only_behind(self.op),
            ({
                let first = ir.blocks[self.exit(ir)].ops.drop_last();
                let x = self.lowered(ir).ran_all(acts, first, u, fuel);
                x is Some && ir.agree(self.op, end, x->0)
            }),
        ensures
            ir.agree(self.op, end, to),
            ({
                let next = State::sum(
                    (end.values)(self.induction_variable(ir)),
                    (end.values)(self.step(ir)),
                );
                let yields = end.read(ir.ops[self.yield_op(ir)].operands);
                self.lowered(ir).stepped(acts, self.exit(ir), u, fuel) == Some(
                    Arrival {
                        block: self.header(ir),
                        state: to.with_args(self.header(ir), seq![next] + yields),
                    },
                )
            }),
    {
        let after = self.lowered(ir);
        let op = ir.ops[self.op];
        let exit = self.exit(ir);
        let header = self.header(ir);
        assert(forall|o: OpId| ir.ops.contains_key(o) ==> o < ir.next_op) by {
            reveal(Ir::wf);
        }
        assert(forall|b: BlockId| ir.blocks.contains_key(b) ==> b < ir.next_block) by {
            reveal(Ir::wf);
        }
        assert(after.next_op <= usize::MAX && after.next_block <= usize::MAX) by {
            reveal(Ir::wf);
        }
        ir.entry_exit_in_range(self.op, 0);
        ir.operands_there(self.op);
        op.earlier_segment(0, 1);
        op.segment_in_range(0);
        let iv = self.induction_variable(ir);
        let step = self.step(ir);
        assert(step == op.operands[op.segment_start(0) + 2]);
        assert(ir.has_value(step) && !Ir::is_result(step, self.op));
        assert(ir.has_value(iv) && !Ir::is_result(iv, self.op));
        let advance = self.advance(ir);
        let repeat = self.repeat(ir);
        let first = ir.blocks[exit].ops.drop_last();
        let ops = after.blocks[exit].ops;
        assert(ops == first + seq![advance, repeat]);
        assert(ops.drop_last() =~= first.push(advance));
        assert(ops.last() == repeat);
        assert(first.push(advance).drop_last() =~= first);
        let x = after.ran_all(acts, first, u, fuel)->0;
        let to = after.ran(acts, advance, x, fuel)->0;
        assert(after.ran_all(acts, ops.drop_last(), u, fuel) == Some(to));
        assert(self.renamed(ir, step) == step);
        let read = x.read(after.ops[advance].operands);
        assert(read[0] == (end.values)(iv) && read[1] == (end.values)(step));
        let next = Value::OpResult { op: advance, idx: 0 };
        assert((to.values)(next) == State::sum((end.values)(iv), (end.values)(step)));
        assert(ir.agree(self.op, end, to));
        let y = ir.ops[self.yield_op(ir)];
        ir.operands_there(self.yield_op(ir));
        assert(ir.ops[self.op].regions.contains(self.body(ir)));
        assert(ir.clear(ir.blocks[exit].ops[ir.blocks[exit].ops.len() - 1], self.op));
        assert(ir.clear_to(self.yield_op(ir), self.op, 0));
        Ir::substituted_same(y.operands, self.op, header, 1);
        assert(self.all_renamed(ir, y.operands) =~= y.operands.map_values(
            |v: Value| Ir::substituted(v, self.op, header, 1),
        ));
        ir.read_alike(self.op, y.operands, end, to);
        let forwarded = seq![next] + y.operands;
        assert(after.ops[repeat].operands == forwarded);
        assert(to.read(forwarded) =~= seq![(to.values)(next)] + to.read(y.operands));
        to
    }

    /// From the header, control gets behind the loop in the way in which the rounds of the loop
    /// do.
    proof fn rounds_reach(
        self,
        ir: Ir,
        acts: spec_fn(OpId, Seq<int>, int) -> (Seq<int>, int),
        iv: int,
        iters: Seq<int>,
        s: State,
        t: State,
        fuel: nat,
        count: nat,
    ) -> (done: State)
        requires
            ir.wf(),
            self.lowerable(ir),
            self.lowered(ir).wf(),
            ir.used_only_behind(self.op),
            self.steady(ir),
            ir.agree(self.op, s, t),
            iters.len() == ir.ops[self.op].results.len(),
            self.rounds(
                ir,
                ir.running(acts, self.op, 0, fuel),
                (s.values)(self.upper_bound(ir)),
                (s.values)(self.step(ir)),
                iv,
                iters,
                s,
                count,
            ) is Some,
        ensures
            self.lowered(ir).reaches(
                acts,
                self.region(ir),
                self.header(ir),
                t.with_args(self.header(ir), seq![iv] + iters),
                self.after(ir),
                done,
            ),
            ir.agree_behind(
                self.op,
                self.header(ir),
                1,
                self.rounds(
                    ir,
                    ir.running(acts, self.op, 0, fuel),
                    (s.values)(self.upper_bound(ir)),
                    (s.values)(self.step(ir)),
                    iv,
                    iters,
                    s,
                    count,
                )->0,
                done,
            ),
        decreases count,
    {
        let after = self.lowered(ir);
        let region = self.region(ir);
        let header = self.header(ir);
        let upper = (s.values)(self.upper_bound(ir));
        let step = (s.values)(self.step(ir));
        self.code_kept(ir);
        let h = t.with_args(header, seq![iv] + iters);
        let to = self.header_step(ir, acts, s, t, iv, iters, fuel);
        if iv >= upper {
            after.step_reaches(acts, region, header, h, fuel, self.after(ir), to);
            to
        } else {
            let entry = self.entry(ir);
            let exit = self.exit(ir);
            let body = self.body(ir);
            let start = s.with_args(entry, seq![iv] + iters);
            assert(ir.running(acts, self.op, 0, fuel)(start) is Some);
            let end = ir.ran_region(acts, body, entry, start, fuel)->0.state;
            ir.entry_exit_in_range(self.op, 0);
            after.step_reaches(acts, region, header, h, fuel, entry, to);
            let u = ir.body_alike(after, self.op, acts, 0, region, entry, start, to, fuel);
            after.reaches_on(acts, region, header, h, entry, to, exit, u);
            ir.ran_region_leaves(acts, body, entry, start, fuel, self.upper_bound(ir));
            ir.ran_region_leaves(acts, body, entry, start, fuel, self.step(ir));
            ir.ran_region_leaves(acts, body, entry, start, fuel, self.induction_variable(ir));
            let back = self.back_step(ir, acts, end, u, fuel);
            let yields = end.read(ir.ops[self.yield_op(ir)].operands);
            let again = back.with_args(header, seq![State::sum(iv, step)] + yields);
            assert((start.values)(self.induction_variable(ir)) == iv);
            assert((start.values)(self.upper_bound(ir)) == upper);
            assert((start.values)(self.step(ir)) == step);
            after.step_reaches(acts, region, exit, u, fuel, header, again);
            after.reaches_on(acts, region, header, h, exit, u, header, again);
            let done = self.rounds_reach(
                ir,
                acts,
                State::sum(iv, step),
                yields,
                end,
                back,
                fuel,
                (count - 1) as nat,
            );
            after.reaches_on(acts, region, header, h, header, again, self.after(ir), done);
            done
        }
    }

    /// If control gets behind a loop, from the start of the block that holds it, then, from
    /// there, in a state that agrees, it gets behind the lowered loop, in a state that agrees;
    /// the loop-carried variables in the header are the results of the loop.
    pub proof fn lowering_keeps_meaning(
        self,
        ir: Ir,
        acts: spec_fn(OpId, Seq<int>, int) -> (Seq<int>, int),
        s: State,
        t: State,
        fuel: nat,
    )
        requires
            ir.wf(),
            self.lowerable(ir),
            self.lowered(ir).wf(),
            ir.ops[self.op].kind is CfFor,
            ir.used_only_behind(self.op),
            self.steady(ir),
            ir.agree(self.op, s, t),
            ir.ran_through(acts, self.op, s, fuel) is Some,
        ensures
            exists|u: State|
                {
                    &&& #[trigger] self.lowered(ir).reaches(
                        acts,
                        self.region(ir),
                        self.pre_header(ir),
                        t,
                        self.after(ir),
                        u,
                    )
                    &&& ir.agree_behind(
                        self.op,
                        self.header(ir),
                        1,
                        ir.ran_through(acts, self.op, s, fuel)->0,
                        u,
                    )
                },
    {
        let after = self.lowered(ir);
        let op = ir.ops[self.op];
        let pre = self.pre_header(ir);
        let header = self.header(ir);
        let region = self.region(ir);
        assert(forall|o: OpId| ir.ops.contains_key(o) ==> o < ir.next_op) by {
            reveal(Ir::wf);
        }
        assert(forall|b: BlockId| ir.blocks.contains_key(b) ==> b < ir.next_block) by {
            reveal(Ir::wf);
        }
        assert(after.next_op <= usize::MAX && after.next_block <= usize::MAX) by {
            reveal(Ir::wf);
        }
        ir.entry_exit_in_range(self.op, 0);
        ir.position_in_range(self.op);
        ir.operands_there(self.op);
        op.earlier_segment(0, 1);
        op.segment_in_range(0);
        op.segment_in_range(1);
        self.code_kept(ir);
        ir.others_stand(self.op);
        ir.ran_up_to(acts, self.op, s, fuel);
        let first = ir.blocks[pre].ops.take(ir.position(self.op));
        let x = ir.ran_all(acts, first, s, fuel)->0;
        ir.ran_all_alike(after, self.op, acts, first, s, t, fuel);
        let y = self.enter_step(ir, acts, x, t, fuel);
        let iv = (x.values)(self.lower_bound(ir));
        let iters = x.read(self.iter_args_init(ir));
        let h = y.with_args(header, seq![iv] + iters);
        after.step_reaches(acts, region, pre, t, fuel, header, h);
        let u = self.rounds_reach(ir, acts, iv, iters, x, y, fuel, fuel);
        after.reaches_on(acts, region, pre, t, header, h, self.after(ir), u);
    }

    /// If control comes to an end after the lowering, from the header, then the loop came to an
    /// end, with as many rounds, if its body may run as long.
    proof fn rounds_end(
        self,
        ir: Ir,
        acts: spec_fn(OpId, Seq<int>, int) -> (Seq<int>, int),
        iv: int,
        iters: Seq<int>,
        s: State,
        t: State,
        fuel: nat,
        most: nat,
    )
        requires
            ir.wf(),
            self.lowerable(ir),
            self.lowered(ir).wf(),
            ir.used_only_behind(self.op),
            self.steady(ir),
            ir.branches_stay(),
            ir.ends_last(self.op),
            ir.agree(self.op, s, t),
            iters.len() == ir.ops[self.op].results.len(),
            fuel <= most,
            self.lowered(ir).ran_region(
                acts,
                self.region(ir),
                self.header(ir),
                t.with_args(self.header(ir), seq![iv] + iters),
                fuel,
            ) is Some,
        ensures
            self.rounds(
                ir,
                ir.running(acts, self.op, 0, most),
                (s.values)(self.upper_bound(ir)),
                (s.values)(self.step(ir)),
                iv,
                iters,
                s,
                fuel,
            ) is Some,
        decreases fuel,
    {
        let after = self.lowered(ir);
        let region = self.region(ir);
        let header = self.header(ir);
        let upper = (s.values)(self.upper_bound(ir));
        let step = (s.values)(self.step(ir));
        self.code_kept(ir);
        let h = t.with_args(header, seq![iv] + iters);
        let to = self.header_step(ir, acts, s, t, iv, iters, fuel);
        if iv < upper {
            let entry = self.entry(ir);
            let exit = self.exit(ir);
            let body = self.body(ir);
            let start = s.with_args(entry, seq![iv] + iters);
            ir.entry_exit_in_range(self.op, 0);
            assert(!ir.blocks.contains_key(header)) by {
                reveal(Ir::wf);
            }
            after.step_reaches(acts, region, header, h, fuel, entry, to);
            let left = after.ran_region_after(acts, region, header, h, entry, to, fuel);
            self.exit_kept(ir);
            ir.body_back(after, self.op, acts, 0, region, entry, start, to, left);
            let end = ir.ran_region(acts, body, entry, start, left)->0.state;
            let u = ir.body_alike(after, self.op, acts, 0, region, entry, start, to, left);
            ir.ran_region_leaves(acts, body, entry, start, left, self.upper_bound(ir));
            ir.ran_region_leaves(acts, body, entry, start, left, self.step(ir));
            ir.ran_region_leaves(acts, body, entry, start, left, self.induction_variable(ir));
            let back = self.back_step(ir, acts, end, u, left);
            let yields = end.read(ir.ops[self.yield_op(ir)].operands);
            let next = State::sum(iv, step);
            let again = back.with_args(header, seq![next] + yields);
            assert((start.values)(self.induction_variable(ir)) == iv);
            assert((start.values)(self.upper_bound(ir)) == upper);
            assert((start.values)(self.step(ir)) == step);
            after.step_reaches(acts, region, exit, u, left, header, again);
            after.reaches_on(acts, region, entry, to, exit, u, header, again);
            let rest = after.ran_region_after(acts, region, entry, to, header, again, left);
            self.rounds_end(ir, acts, next, yields, end, back, rest, most);
            let run = ir.running(acts, self.op, 0, most);
            assert(ir.running(acts, self.op, 0, left)(start) == Some(end));
            ir.running_more(acts, self.op, 0, left, most);
            assert(run(start) == Some(end));
            let less = (fuel - 1) as nat;
            self.rounds_more(ir, run, run, upper, step, next, yields, end, rest, less);
        }
    }

    /// What runs in the exit block of the body before its end still stands at its start.
    proof fn exit_kept(self, ir: Ir)
        requires
            ir.wf(),
            self.lowerable(ir),
            self.lowered(ir).wf(),
        ensures
            ({
                let first = ir.blocks[self.exit(ir)].ops.drop_last();
                let ops = self.lowered(ir).blocks[self.exit(ir)].ops;
                first.len() < ops.len() && ops.take(first.len() as int) == first
            }),
    {
        let after = self.lowered(ir);
        ir.entry_exit_in_range(self.op, 0);
        assert(forall|b: BlockId| ir.blocks.contains_key(b) ==> b < ir.next_block) by {
            reveal(Ir::wf);
        }
        assert(after.next_block <= usize::MAX) by {
            reveal(Ir::wf);
        }
        let first = ir.blocks[self.exit(ir)].ops.drop_last();
        let ops = after.blocks[self.exit(ir)].ops;
        assert(ops == first + seq![self.advance(ir), self.repeat(ir)]);
        assert(ops.take(first.len() as int) =~= first);
    }

    /// From the start of the block that held the loop, control gets to the header once what
    /// precedes the loop has come to an end, with the lower bound and the initial values.
    proof fn enter_step(
        self,
        ir: Ir,
        acts: spec_fn(OpId, Seq<int>, int) -> (Seq<int>, int),
        x: State,
        t: State,
        fuel: nat,
    ) -> (y: State)
        requires
            ir.wf(),
            self.lowerable(ir),
            self.lowered(ir).wf(),
            ir.used_only_behind(self.op),
            ({
                let first = ir.blocks[self.pre_header(ir)].ops.take(ir.position(self.op));
                let z = self.lowered(ir).ran_all(acts, first, t, fuel);
                z is Some && ir.agree(self.op, x, z->0)
            }),
        ensures
            ir.agree(self.op, x, y),
            x.read(self.iter_args_init(ir)).len() == ir.ops[self.op].results.len(),
            self.lowered(ir).stepped(acts, self.pre_header(ir), t, fuel) == Some(
                Arrival {
                    block: self.header(ir),
                    state: y.with_args(
                        self.header(ir),
                        seq![(x.values)(self.lower_bound(ir))] + x.read(self.iter_args_init(ir)),
                    ),
                },
            ),
    {
        let after = self.lowered(ir);
        let op = ir.ops[self.op];
        let pre = self.pre_header(ir);
        let header = self.header(ir);
        assert(forall|o: OpId| ir.ops.contains_key(o) ==> o < ir.next_op) by {
            reveal(Ir::wf);
        }
        assert(forall|b: BlockId| ir.blocks.contains_key(b) ==> b < ir.next_block) by {
            reveal(Ir::wf);
        }
        assert(after.next_op <= usize::MAX && after.next_block <= usize::MAX) by {
            reveal(Ir::wf);
        }
        ir.entry_exit_in_range(self.op, 0);
        ir.position_in_range(self.op);
        ir.operands_there(self.op);
        op.earlier_segment(0, 1);
        op.segment_in_range(0);
        op.segment_in_range(1);
        let first = ir.blocks[pre].ops.take(ir.position(self.op));
        let y = after.ran_all(acts, first, t, fuel)->0;
        let enter = self.enter(ir);
        let ops = after.blocks[pre].ops;
        assert(ops == first.push(enter));
        assert(ops.drop_last() =~= first);
        assert(ops.last() == enter);
        let inits = self.iter_args_init(ir);
        let lower = self.lower_bound(ir);
        let given = seq![lower] + inits;
        assert(lower == op.operands[op.segment_start(0) + 0]);
        assert forall|i: int| 0 <= i < given.len() implies ir.has_value(#[trigger] given[i])
            && !Ir::is_result(given[i], self.op) by {
            if i > 0 {
                assert(given[i] == op.operands[op.segment_start(1) + (i - 1)]);
            } else {
                assert(given[i] == op.operands[op.segment_start(0) + 0]);
            }
        }
        Ir::substituted_same(given, self.op, header, 1);
        assert(self.all_renamed(ir, given) =~= given.map_values(
            |v: Value| Ir::substituted(v, self.op, header, 1),
        ));
        ir.read_alike(self.op, given, x, y);
        assert(x.read(given) =~= seq![(x.values)(lower)] + x.read(inits));
        y
    }

    /// If control comes to an end after the lowering, from the start of the block that held the
    /// loop, then, from there, in a state that agrees, it got behind the loop.
    pub(crate) proof fn lowering_adds_nothing(
        self,
        ir: Ir,
        acts: spec_fn(OpId, Seq<int>, int) -> (Seq<int>, int),
        s: State,
        t: State,
        fuel: nat,
    )
        requires
            ir.wf(),
            self.lowerable(ir),
            self.lowered(ir).wf(),
            ir.ops[self.op].kind is CfFor,
            ir.used_only_behind(self.op),
            self.steady(ir),
            ir.branches_stay(),
            ir.ends_last(self.op),
            ir.agree(self.op, s, t),
            self.lowered(ir).ran_region(
                acts,
                self.region(ir),
                self.pre_header(ir),
                t,
                fuel,
            ) is Some,
        ensures
            exists|f: nat| #[trigger] ir.ran_through(acts, self.op, s, f) is Some,
    {
        let after = self.lowered(ir);
        let pre = self.pre_header(ir);
        let header = self.header(ir);
        let region = self.region(ir);
        let less = (fuel - 1) as nat;
        assert(!ir.blocks.contains_key(header)) by {
            reveal(Ir::wf);
        }
        self.code_kept(ir);
        ir.position_in_range(self.op);
        ir.entry_exit_in_range(self.op, 0);
        ir.others_stand(self.op);
        let first = ir.blocks[pre].ops.take(ir.position(self.op));
        let ops = after.blocks[pre].ops;
        assert(ops.drop_last() =~= first) by {
            assert(after.next_block <= usize::MAX) by {
                reveal(Ir::wf);
            }
            assert(forall|b: BlockId| ir.blocks.contains_key(b) ==> b < ir.next_block) by {
                reveal(Ir::wf);
            }
            assert(ops == first.push(self.enter(ir)));
        }
        ir.ran_all_alike(after, self.op, acts, first, s, t, less);
        let x = ir.ran_all(acts, first, s, less)->0;
        let y = self.enter_step(ir, acts, x, t, less);
        let iv = (x.values)(self.lower_bound(ir));
        let iters = x.read(self.iter_args_init(ir));
        let h = y.with_args(header, seq![iv] + iters);
        after.step_reaches(acts, region, pre, t, less, header, h);
        let left = after.ran_region_after(acts, region, pre, t, header, h, fuel);
        self.rounds_end(ir, acts, iv, iters, x, y, left, less);
        let run = ir.running(acts, self.op, 0, less);
        let upper = (x.values)(self.upper_bound(ir));
        let step = (x.values)(self.step(ir));
        self.rounds_more(ir, run, run, upper, step, iv, iters, x, left, less);
        ir.ops[self.op].earlier_segment(0, 1);
        ir.ran_through_to(acts, self.op, s, less);
    }
}

} // verus!
