//! Running the same code before and after a change.

use crate::cf::ops::{ForOp, IfOp, NDForOp};
use crate::cf::semantics::State;
use crate::ir::model::Ir;
use crate::ir::types::{BlockId, OpId, OpKind, RegionId, Value};
use vstd::prelude::*;

verus! {

impl Ir {
    /// Does the operation `o` use no result of `op`?
    pub open spec fn spares(self, o: OpId, op: OpId) -> bool {
        forall|i: int|
            0 <= i < self.ops[o].operands.len() ==> !Ir::is_result(
                #[trigger] self.ops[o].operands[i],
                op,
            )
    }

    /// Is `op` neither the operation `o` nor, down to the given depth, in it, and do these use no
    /// result of `op`?
    pub open spec fn clear_to(self, o: OpId, op: OpId, depth: nat) -> bool
        decreases depth,
    {
        &&& o != op
        &&& self.spares(o, op)
        &&& depth > 0 ==> forall|b: BlockId, i: int|
            #![trigger self.blocks[b].ops[i]]
            self.blocks.contains_key(b) && self.ops[o].regions.contains(self.blocks[b].parent) && 0
                <= i < self.blocks[b].ops.len() ==> self.clear_to(
                self.blocks[b].ops[i],
                op,
                (depth - 1) as nat,
            )
    }

    /// Is `op` neither the operation `o` nor in it, and do these use no result of `op`?
    pub open spec fn clear(self, o: OpId, op: OpId) -> bool {
        forall|depth: nat| #[trigger] self.clear_to(o, op, depth)
    }

    /// Is `o` what ends a region of `op`?
    pub open spec fn ends(self, o: OpId, op: OpId) -> bool {
        let b = self.holder(o);
        let r = self.blocks[b].parent;
        &&& self.placed(o)
        &&& self.regions[r].parent == op
        &&& self.regions[r].blocks.last() == b
        &&& self.blocks[b].ops.last() == o
    }

    /// Is an operation still the same?
    pub open spec fn same_op(self, later: Ir, o: OpId) -> bool {
        &&& later.ops.contains_key(o)
        &&& later.ops[o].kind == self.ops[o].kind
        &&& later.ops[o].results == self.ops[o].results
        &&& later.ops[o].operands == self.ops[o].operands
        &&& later.ops[o].successors == self.ops[o].successors
        &&& later.ops[o].regions == self.ops[o].regions
        &&& later.ops[o].segments == self.ops[o].segments
    }

    /// Is all code still the same but for `op`, the block and the region that `op` is in, its
    /// own regions and blocks, what ends these, and what uses its results?
    pub open spec fn same_beside(self, later: Ir, op: OpId) -> bool {
        &&& forall|o: OpId| #[trigger]
            self.ops.contains_key(o) && o != op && !self.ends(o, op) && self.spares(o, op)
                ==> self.same_op(later, o)
        &&& forall|b: BlockId| #[trigger]
            self.blocks.contains_key(b) && b != self.holder(op) && self.regions[
            self.blocks[b].parent].parent != op ==> later.blocks.contains_key(b)
                && later.blocks[b].ops == self.blocks[b].ops && later.blocks[b].parent
                == self.blocks[b].parent
        &&& forall|r: RegionId| #[trigger]
            self.regions.contains_key(r) && r != self.blocks[self.holder(op)].parent
                && self.regions[r].parent != op ==> later.regions[r].blocks
                == self.regions[r].blocks
    }

    /// Is the operation `o` there, and has it nothing to do with `op`?
    pub open spec fn stands(self, o: OpId, op: OpId) -> bool {
        self.ops.contains_key(o) && self.clear(o, op) && !self.ends(o, op)
    }

    /// Have the operations nothing to do with `op`?
    pub open spec fn all_stand(self, ops: Seq<OpId>, op: OpId) -> bool {
        forall|i: int| 0 <= i < ops.len() ==> self.stands(#[trigger] ops[i], op)
    }

    /// Do two states, of this representation and of one to which it was changed, agree on all
    /// that was there before, but for the results of `op`?
    pub open spec fn agree(self, op: OpId, s: State, t: State) -> bool {
        &&& s.world == t.world
        &&& forall|v: Value|
            self.has_value(v) && !Ir::is_result(v, op) ==> (s.values)(v) == #[trigger] (t.values)(
                v,
            )
    }

    /// Do all branches lead to blocks of the region that they are in?
    pub open spec fn branches_stay(self) -> bool {
        forall|b: BlockId, k: int, j: int|
            #![trigger self.ops[self.blocks[b].ops[k]].successors[j]]
            self.blocks.contains_key(b) && 0 <= k < self.blocks[b].ops.len() && 0 <= j
                < self.ops[self.blocks[b].ops[k]].successors.len() ==> self.blocks[
            self.ops[self.blocks[b].ops[k]].successors[j]].parent == self.blocks[b].parent
    }

    /// The branch that ends a block leads to a block of the same region.
    pub proof fn led_stays(
        self,
        acts: spec_fn(OpId, Seq<int>, int) -> (Seq<int>, int),
        block: BlockId,
        s: State,
    )
        requires
            self.wf(),
            self.branches_stay(),
            self.blocks.contains_key(block),
            self.blocks[block].ops.len() > 0,
            self.led(acts, self.blocks[block].ops.last(), s) is Some,
        ensures
            ({
                let to = self.led(acts, self.blocks[block].ops.last(), s)->0.block;
                self.blocks.contains_key(to) && self.blocks[to].parent == self.blocks[block].parent
            }),
    {
        let k = self.blocks[block].ops.len() - 1;
        let last = self.blocks[block].ops[k];
        self.position_unique(block, k);
        self.successors_there(last);
        assert(self.blocks[self.ops[self.blocks[block].ops[k]].successors[0]].parent
            == self.blocks[block].parent);
        if self.ops[last].successors.len() > 1 {
            assert(self.blocks[self.ops[self.blocks[block].ops[k]].successors[1]].parent
                == self.blocks[block].parent);
        }
        let (numbers, _) = acts(last, s.read(self.ops[last].operands), s.world);
        if 0 <= numbers[0] < self.ops[last].successors.len() {
            assert(self.blocks[self.ops[self.blocks[block].ops[k]].successors[numbers[0]]].parent
                == self.blocks[block].parent);
        }
    }

    /// Does the other run, from a state that agrees, lead to one that agrees? And if branches
    /// stay in their regions, does it come to an end only if the one does?
    pub open spec fn alike(
        self,
        op: OpId,
        run: spec_fn(State) -> Option<State>,
        other: spec_fn(State) -> Option<State>,
    ) -> bool {
        forall|s: State, t: State| #[trigger]
            self.agree(op, s, t) ==> {
                &&& run(s) is Some ==> other(t) is Some && self.agree(op, run(s)->0, other(t)->0)
                &&& self.branches_stay() && other(t) is Some ==> run(s) is Some
            }
    }

    /// What is in an operation that has nothing to do with `op` has nothing to do with `op`
    /// either, and stays where it is.
    pub proof fn inside_kept(self, later: Ir, o: OpId, op: OpId, i: int)
        requires
            self.wf(),
            self.placed(op),
            self.same_beside(later, op),
            self.stands(o, op),
            0 <= i < self.ops[o].regions.len(),
        ensures
            ({
                let r = self.ops[o].regions[i];
                &&& self.same_op(later, o)
                &&& later.regions[r].blocks == self.regions[r].blocks
                &&& forall|b: BlockId| #[trigger]
                    self.blocks.contains_key(b) && self.blocks[b].parent == r
                        ==> later.blocks.contains_key(b) && later.blocks[b].ops
                        == self.blocks[b].ops && later.blocks[b].parent == r && self.all_stand(
                        self.blocks[b].ops,
                        op,
                    )
            }),
    {
        let r = self.ops[o].regions[i];
        assert(self.clear_to(o, op, 0));
        self.region_there(o, i);
        self.position_in_range(op);
        assert(self.ops[o].regions.contains(r));
        assert(self.clear_to(o, op, 1));
        assert forall|b: BlockId, k: int|
            #![trigger self.blocks[b].ops[k]]
            self.blocks.contains_key(b) && self.blocks[b].parent == r && 0 <= k
                < self.blocks[b].ops.len() implies self.stands(self.blocks[b].ops[k], op) by {
            self.position_unique(b, k);
            assert forall|depth: nat| #[trigger]
                self.clear_to(self.blocks[b].ops[k], op, depth) by {
                assert(self.clear_to(o, op, depth + 1));
            }
        }
        if self.blocks[self.holder(op)].parent == r {
            let k = self.position(op);
            assert(self.stands(self.blocks[self.holder(op)].ops[k], op));
            assert(self.clear_to(op, op, 0));
        }
    }

    /// Values that are there, and are no results of `op`, are read alike in states that agree.
    pub proof fn read_alike(self, op: OpId, vs: Seq<Value>, s: State, t: State)
        requires
            self.agree(op, s, t),
            self.has_values(vs),
            forall|i: int| 0 <= i < vs.len() ==> !Ir::is_result(#[trigger] vs[i], op),
        ensures
            s.read(vs) == t.read(vs),
    {
        assert forall|i: int| 0 <= i < vs.len() implies (s.values)(#[trigger] vs[i]) == (t.values)(
            vs[i],
        ) by {
            assert(self.has_value(vs[i]));
        }
        assert(s.read(vs) =~= t.read(vs));
    }

    /// The operands of an operation that spares `op` are read alike in states that agree.
    pub proof fn operands_alike(self, o: OpId, op: OpId, s: State, t: State)
        requires
            self.wf(),
            self.ops.contains_key(o),
            self.spares(o, op),
            self.agree(op, s, t),
        ensures
            s.read(self.ops[o].operands) == t.read(self.ops[o].operands),
            forall|i: int| #![trigger self.ops[o].operands[i]]
                0 <= i < self.ops[o].operands.len() ==> (s.values)(self.ops[o].operands[i]) == (
                t.values)(self.ops[o].operands[i]),
            forall|k: int| #![trigger self.ops[o].segment(k)]
                self.ops[o].has_segment(k) ==> s.read(self.ops[o].segment(k)) == t.read(
                    self.ops[o].segment(k),
                ) && forall|j: int| #![trigger self.ops[o].segment(k)[j]]
                    0 <= j < self.ops[o].segment(k).len() ==> (s.values)(self.ops[o].segment(k)[j])
                        == (t.values)(self.ops[o].segment(k)[j]),
    {
        let view = self.ops[o];
        self.operands_there(o);
        self.read_alike(op, view.operands, s, t);
        assert forall|i: int| #![trigger view.operands[i]]
            0 <= i < view.operands.len() implies (s.values)(view.operands[i]) == (t.values)(
            view.operands[i],
        ) by {
            assert(self.has_value(view.operands[i]));
            assert(!Ir::is_result(view.operands[i], op));
        }
        assert forall|k: int| #![trigger view.segment(k)]
            view.has_segment(k) implies s.read(view.segment(k)) == t.read(view.segment(k))
            && forall|j: int| #![trigger view.segment(k)[j]]
                0 <= j < view.segment(k).len() ==> (s.values)(view.segment(k)[j]) == (t.values)(
                    view.segment(k)[j],
                ) by {
            view.segment_in_range(k);
            assert forall|j: int| #![trigger view.segment(k)[j]]
                0 <= j < view.segment(k).len() implies (s.values)(view.segment(k)[j]) == (
            t.values)(view.segment(k)[j]) by {
                assert(view.segment(k)[j] == view.operands[view.segment_start(k) + j]);
            }
            assert(s.read(view.segment(k)) =~= t.read(view.segment(k)));
        }
    }

    /// The same branch, in states that agree, leads to the same block, and to states that
    /// agree, or to none in either.
    pub proof fn led_alike(
        self,
        later: Ir,
        acts: spec_fn(OpId, Seq<int>, int) -> (Seq<int>, int),
        op: OpId,
        o: OpId,
        s: State,
        t: State,
    )
        requires
            self.wf(),
            self.ops.contains_key(o),
            self.spares(o, op),
            self.same_op(later, o),
            self.agree(op, s, t),
        ensures
            later.led(acts, o, t) is Some <==> self.led(acts, o, s) is Some,
            self.led(acts, o, s) is Some ==> later.led(acts, o, t)->0.block == self.led(
                acts,
                o,
                s,
            )->0.block && self.agree(
                op,
                self.led(acts, o, s)->0.state,
                later.led(acts, o, t)->0.state,
            ),
    {
        let view = self.ops[o];
        self.operands_alike(o, op, s, t);
        if view.has_segment(2) && view.operands.len() > 0 {
            view.earlier_segment(1, 2);
            assert(view.segment(1) == later.ops[o].segment(1));
            assert(view.segment(2) == later.ops[o].segment(2));
            assert((s.values)(view.operands[0]) == (t.values)(view.operands[0]));
            assert(s.read(view.segment(1)) == t.read(view.segment(1)));
            assert(s.read(view.segment(2)) == t.read(view.segment(2)));
        }
    }
}

impl ForOp {
    /// The same loop with bodies that are alike leads to states that agree, and, if branches stay
    /// in their regions, comes to an end only if it did.
    proof fn rounds_alike(
        self,
        ir: Ir,
        later: Ir,
        op: OpId,
        run: spec_fn(State) -> Option<State>,
        other: spec_fn(State) -> Option<State>,
        upper: int,
        step: int,
        iv: int,
        iters: Seq<int>,
        s: State,
        t: State,
        count: nat,
    )
        requires
            ir.wf(),
            self.op != op,
            ir.alike(op, run, other),
            self.entry(later) == self.entry(ir),
            forall|x: State| #[trigger]
                run(x) is Some ==> {
                    let y = self.yield_op(ir);
                    &&& ir.ops.contains_key(y)
                    &&& ir.spares(y, op)
                    &&& later.ops[self.yield_op(later)].operands == ir.ops[y].operands
                },
            ir.agree(op, s, t),
        ensures
            self.rounds(ir, run, upper, step, iv, iters, s, count) is Some ==> self.rounds(
                later,
                other,
                upper,
                step,
                iv,
                iters,
                t,
                count,
            ) is Some && ir.agree(
                op,
                self.rounds(ir, run, upper, step, iv, iters, s, count)->0,
                self.rounds(later, other, upper, step, iv, iters, t, count)->0,
            ),
            ir.branches_stay() && self.rounds(later, other, upper, step, iv, iters, t, count)
                is Some ==> self.rounds(ir, run, upper, step, iv, iters, s, count) is Some,
        decreases count,
    {
        if iv < upper && count > 0 {
            let start = s.with_args(self.entry(ir), seq![iv] + iters);
            let there = t.with_args(self.entry(ir), seq![iv] + iters);
            assert(ir.agree(op, start, there));
            if run(start) is Some {
                let end = run(start)->0;
                let done = other(there)->0;
                ir.operands_alike(self.yield_op(ir), op, end, done);
                self.rounds_alike(
                    ir,
                    later,
                    op,
                    run,
                    other,
                    upper,
                    step,
                    State::sum(iv, step),
                    end.read(ir.ops[self.yield_op(ir)].operands),
                    end,
                    done,
                    (count - 1) as nat,
                );
            }
        }
    }
}

impl NDForOp {
    /// The same loops with bodies that are alike lead to states that agree, and, if branches stay
    /// in their regions, come to an end only if they did.
    pub(crate) proof fn nest_alike(
        self,
        ir: Ir,
        later: Ir,
        op: OpId,
        run: spec_fn(State) -> Option<State>,
        other: spec_fn(State) -> Option<State>,
        lowers: Seq<int>,
        uppers: Seq<int>,
        steps: Seq<int>,
        ivs: Seq<int>,
        s: State,
        t: State,
        count: nat,
    )
        requires
            ir.alike(op, run, other),
            self.entry(later) == self.entry(ir),
            self.dims(later) == self.dims(ir),
            ir.agree(op, s, t),
        ensures
            self.nest(ir, run, lowers, uppers, steps, ivs, s, count) is Some ==> self.nest(
                later,
                other,
                lowers,
                uppers,
                steps,
                ivs,
                t,
                count,
            ) is Some && ir.agree(
                op,
                self.nest(ir, run, lowers, uppers, steps, ivs, s, count)->0,
                self.nest(later, other, lowers, uppers, steps, ivs, t, count)->0,
            ),
            ir.branches_stay() && self.nest(later, other, lowers, uppers, steps, ivs, t, count)
                is Some ==> self.nest(ir, run, lowers, uppers, steps, ivs, s, count) is Some,
        decreases count, 1nat,
    {
        if ivs.len() >= self.dims(ir) {
            let start = s.with_args(self.entry(ir), ivs);
            let there = t.with_args(self.entry(ir), ivs);
            assert(ir.agree(op, start, there));
        } else {
            let iv = lowers[ivs.len() as int];
            self.along_alike(
                ir,
                later,
                op,
                run,
                other,
                lowers,
                uppers,
                steps,
                ivs,
                iv,
                s,
                t,
                count,
            );
        }
    }

    proof fn along_alike(
        self,
        ir: Ir,
        later: Ir,
        op: OpId,
        run: spec_fn(State) -> Option<State>,
        other: spec_fn(State) -> Option<State>,
        lowers: Seq<int>,
        uppers: Seq<int>,
        steps: Seq<int>,
        ivs: Seq<int>,
        iv: int,
        s: State,
        t: State,
        count: nat,
    )
        requires
            ir.alike(op, run, other),
            self.entry(later) == self.entry(ir),
            self.dims(later) == self.dims(ir),
            ir.agree(op, s, t),
        ensures
            self.along(ir, run, lowers, uppers, steps, ivs, iv, s, count) is Some ==> self.along(
                later,
                other,
                lowers,
                uppers,
                steps,
                ivs,
                iv,
                t,
                count,
            ) is Some && ir.agree(
                op,
                self.along(ir, run, lowers, uppers, steps, ivs, iv, s, count)->0,
                self.along(later, other, lowers, uppers, steps, ivs, iv, t, count)->0,
            ),
            ir.branches_stay() && self.along(later, other, lowers, uppers, steps, ivs, iv, t, count)
                is Some ==> self.along(ir, run, lowers, uppers, steps, ivs, iv, s, count) is Some,
        decreases count, 0nat,
    {
        let d = ivs.len() as int;
        if iv < uppers[d] && count > 0 {
            let c = (count - 1) as nat;
            let more = ivs.push(iv);
            self.nest_alike(ir, later, op, run, other, lowers, uppers, steps, more, s, t, c);
            if self.nest(ir, run, lowers, uppers, steps, more, s, c) is Some {
                let end = self.nest(ir, run, lowers, uppers, steps, more, s, c)->0;
                let done = self.nest(later, other, lowers, uppers, steps, more, t, c)->0;
                let next = State::sum(iv, steps[d]);
                self.along_alike(
                    ir,
                    later,
                    op,
                    run,
                    other,
                    lowers,
                    uppers,
                    steps,
                    ivs,
                    next,
                    end,
                    done,
                    c,
                );
            }
        }
    }
}

impl Ir {
    /// Running an operation that has nothing to do with `op`, in states that agree, leads to
    /// states that agree, and, if branches stay in their regions, comes to an end only if it did.
    pub proof fn ran_alike(
        self,
        later: Ir,
        op: OpId,
        acts: spec_fn(OpId, Seq<int>, int) -> (Seq<int>, int),
        o: OpId,
        s: State,
        t: State,
        fuel: nat,
    )
        requires
            self.wf(),
            self.placed(op),
            self.same_beside(later, op),
            self.stands(o, op),
            self.agree(op, s, t),
        ensures
            self.ran(acts, o, s, fuel) is Some ==> later.ran(acts, o, t, fuel) is Some
                && self.agree(op, self.ran(acts, o, s, fuel)->0, later.ran(acts, o, t, fuel)->0),
            self.branches_stay() && later.ran(acts, o, t, fuel) is Some ==> self.ran(
                acts,
                o,
                s,
                fuel,
            ) is Some,
        decreases fuel, 3nat, 0nat,
    {
        assert(self.clear_to(o, op, 0));
        assert(self.same_op(later, o));
        self.operands_alike(o, op, s, t);
        let view = self.ops[o];
        let run = self.running(acts, o, 0, fuel);
        let other = later.running(acts, o, 0, fuel);
        match view.kind {
            OpKind::CfFor if (ForOp { op: o }).has_bounds(self, 3) && view.has_segment(1) => {
                let this = ForOp { op: o };
                self.running_alike(later, op, acts, o, 0, fuel);
                view.earlier_segment(0, 1);
                view.segment_in_range(0);
                assert(view.segment(0) == later.ops[o].segment(0));
                assert(view.segment(1) == later.ops[o].segment(1));
                assert((s.values)(view.segment(0)[0]) == (t.values)(view.segment(0)[0]));
                assert((s.values)(view.segment(0)[1]) == (t.values)(view.segment(0)[1]));
                assert((s.values)(view.segment(0)[2]) == (t.values)(view.segment(0)[2]));
                assert(s.read(view.segment(1)) == t.read(view.segment(1)));
                let upper = (s.values)(this.upper_bound(self));
                let iv = (s.values)(this.lower_bound(self));
                let iters = s.read(this.iter_args_init(self));
                assert forall|x: State| #[trigger] run(x) is Some implies {
                    let y = this.yield_op(self);
                    &&& self.ops.contains_key(y)
                    &&& self.spares(y, op)
                    &&& later.ops[this.yield_op(later)].operands == self.ops[y].operands
                } by {
                    self.yields_alike(later, op, acts, o, 0, x, fuel);
                }
                if self.has_body(o, 0) {
                    this.rounds_alike(
                        self,
                        later,
                        op,
                        run,
                        other,
                        upper,
                        (s.values)(this.step(self)),
                        iv,
                        iters,
                        s,
                        t,
                        fuel,
                    );
                }
            },
            OpKind::CfNDFor if view.has_segment(2) => {
                let this = NDForOp { op: o };
                self.running_alike(later, op, acts, o, 0, fuel);
                view.earlier_segment(0, 2);
                view.earlier_segment(1, 2);
                assert(view.segment(0) == later.ops[o].segment(0));
                assert(view.segment(1) == later.ops[o].segment(1));
                assert(view.segment(2) == later.ops[o].segment(2));
                assert(s.read(view.segment(0)) == t.read(view.segment(0)));
                assert(s.read(view.segment(1)) == t.read(view.segment(1)));
                assert(s.read(view.segment(2)) == t.read(view.segment(2)));
                if self.has_body(o, 0) {
                    this.nest_alike(
                        self,
                        later,
                        op,
                        run,
                        other,
                        s.read(this.lower_bounds(self)),
                        s.read(this.upper_bounds(self)),
                        s.read(this.steps(self)),
                        Seq::empty(),
                        s,
                        t,
                        fuel,
                    );
                }
            },
            OpKind::CfExecuteRegion => {
                self.branch_alike(later, op, acts, o, 0, s, t, fuel);
            },
            OpKind::CfIf if view.operands.len() > 0 => {
                let this = IfOp { op: o };
                assert((s.values)(view.operands[0]) == (t.values)(view.operands[0]));
                if (s.values)(this.condition(self)) != 0 {
                    self.branch_alike(later, op, acts, o, 0, s, t, fuel);
                } else if this.has_else(self) {
                    self.branch_alike(later, op, acts, o, 1, s, t, fuel);
                }
            },
            _ => {},
        }
    }

    /// What a region yields is read alike.
    proof fn yields_alike(
        self,
        later: Ir,
        op: OpId,
        acts: spec_fn(OpId, Seq<int>, int) -> (Seq<int>, int),
        o: OpId,
        i: int,
        s: State,
        fuel: nat,
    )
        requires
            self.wf(),
            self.placed(op),
            self.same_beside(later, op),
            self.stands(o, op),
            self.running(acts, o, i, fuel)(s) is Some,
        ensures
            ({
                let y = self.exit_op(o, i);
                &&& later.entry(o, i) == self.entry(o, i)
                &&& later.exit(o, i) == self.exit(o, i)
                &&& later.exit_op(o, i) == y
                &&& self.ops.contains_key(y)
                &&& self.spares(y, op)
                &&& self.same_op(later, y)
            }),
    {
        self.inside_kept(later, o, op, i);
        self.entry_exit_in_range(o, i);
        self.ran_region_ends(
            acts,
            self.ops[o].regions[i],
            self.entry(o, i),
            s,
            fuel,
        );
        let exit = self.exit(o, i);
        assert(self.all_stand(self.blocks[exit].ops, op));
        let y = self.blocks[exit].ops[self.blocks[exit].ops.len() - 1];
        assert(self.stands(y, op));
        assert(self.clear_to(y, op, 0));
    }

    /// The run of a region ends at the end of a block of it, with an operation that ends it.
    pub proof fn ran_region_ends(
        self,
        acts: spec_fn(OpId, Seq<int>, int) -> (Seq<int>, int),
        region: RegionId,
        block: BlockId,
        s: State,
        fuel: nat,
    )
        requires
            self.ran_region(acts, region, block, s, fuel) is Some,
            self.blocks.contains_key(block),
            self.blocks[block].parent == region,
        ensures
            ({
                let end = self.ran_region(acts, region, block, s, fuel)->0.block;
                &&& self.blocks.contains_key(end)
                &&& self.blocks[end].parent == region
                &&& self.blocks[end].ops.len() > 0
                &&& self.ops[self.blocks[end].ops.last()].kind.closes()
            }),
        decreases fuel,
    {
        let ops = self.blocks[block].ops;
        if !self.ops[ops.last()].kind.closes() {
            let less = (fuel - 1) as nat;
            let t = self.ran_all(acts, ops.drop_last(), s, less)->0;
            let to = self.led(acts, ops.last(), t)->0;
            self.ran_region_ends(acts, region, to.block, to.state, less);
        }
    }

    /// Running one region of an operation once, and taking what it yields for the results.
    proof fn branch_alike(
        self,
        later: Ir,
        op: OpId,
        acts: spec_fn(OpId, Seq<int>, int) -> (Seq<int>, int),
        o: OpId,
        i: int,
        s: State,
        t: State,
        fuel: nat,
    )
        requires
            self.wf(),
            self.placed(op),
            self.same_beside(later, op),
            self.stands(o, op),
            self.agree(op, s, t),
        ensures
            ({
                let this = IfOp { op: o };
                let before = this.branch_meaning(self, self.running(acts, o, i, fuel), i, s);
                let after = this.branch_meaning(later, later.running(acts, o, i, fuel), i, t);
                &&& before is Some ==> after is Some && self.agree(op, before->0, after->0)
                &&& self.branches_stay() && after is Some ==> before is Some
            }),
        decreases fuel, 2nat, 1nat,
    {
        let start = s.with_args(self.entry(o, i), Seq::empty());
        let there = t.with_args(self.entry(o, i), Seq::empty());
        assert(self.clear_to(o, op, 0));
        assert(self.agree(op, start, there));
        self.running_alike(later, op, acts, o, i, fuel);
        if self.running(acts, o, i, fuel)(start) is Some {
            self.yields_alike(later, op, acts, o, i, start, fuel);
            let end = self.running(acts, o, i, fuel)(start)->0;
            let done = later.running(acts, o, i, fuel)(there)->0;
            self.operands_alike(self.exit_op(o, i), op, end, done);
        }
    }

    proof fn running_alike(
        self,
        later: Ir,
        op: OpId,
        acts: spec_fn(OpId, Seq<int>, int) -> (Seq<int>, int),
        o: OpId,
        i: int,
        fuel: nat,
    )
        requires
            self.wf(),
            self.placed(op),
            self.same_beside(later, op),
            self.stands(o, op),
        ensures
            self.alike(op, self.running(acts, o, i, fuel), later.running(acts, o, i, fuel)),
            self.has_body(o, i) <==> later.has_body(o, i),
            self.has_body(o, i) ==> later.entry(o, i) == self.entry(o, i),
        decreases fuel, 2nat, 0nat,
    {
        let run = self.running(acts, o, i, fuel);
        let other = later.running(acts, o, i, fuel);
        assert(self.clear_to(o, op, 0));
        if 0 <= i < self.ops[o].regions.len() {
            self.inside_kept(later, o, op, i);
        }
        if self.has_body(o, i) {
            self.entry_exit_in_range(o, i);
        }
        assert forall|s: State, t: State| #[trigger] self.agree(op, s, t) implies {
            &&& run(s) is Some ==> other(t) is Some && self.agree(op, run(s)->0, other(t)->0)
            &&& self.branches_stay() && other(t) is Some ==> run(s) is Some
        } by {
            if self.has_body(o, i) {
                let entry = self.entry(o, i);
                let r = self.ops[o].regions[i];
                self.ran_region_alike(later, op, acts, o, i, entry, s, t, fuel);
                if self.ran_region(acts, r, entry, s, fuel) is Some {
                    self.ran_region_ends(acts, r, entry, s, fuel);
                    let end = self.ran_region(acts, r, entry, s, fuel)->0.block;
                    let y = self.blocks[end].ops[self.blocks[end].ops.len() - 1];
                    assert(self.all_stand(self.blocks[end].ops, op));
                    assert(self.stands(y, op));
                    assert(self.clear_to(y, op, 0));
                    assert(self.same_op(later, y));
                }
            }
        }
    }

    /// Running operations that have nothing to do with `op`, in states that agree, leads to
    /// states that agree, and, if branches stay in their regions, comes to an end only if it did.
    pub proof fn ran_all_alike(
        self,
        later: Ir,
        op: OpId,
        acts: spec_fn(OpId, Seq<int>, int) -> (Seq<int>, int),
        ops: Seq<OpId>,
        s: State,
        t: State,
        fuel: nat,
    )
        requires
            self.wf(),
            self.placed(op),
            self.same_beside(later, op),
            self.all_stand(ops, op),
            self.agree(op, s, t),
        ensures
            self.ran_all(acts, ops, s, fuel) is Some ==> later.ran_all(acts, ops, t, fuel) is Some
                && self.agree(
                op,
                self.ran_all(acts, ops, s, fuel)->0,
                later.ran_all(acts, ops, t, fuel)->0,
            ),
            self.branches_stay() && later.ran_all(acts, ops, t, fuel) is Some ==> self.ran_all(
                acts,
                ops,
                s,
                fuel,
            ) is Some,
        decreases fuel, 4nat, ops.len(),
    {
        if ops.len() > 0 {
            let rest = ops.drop_last();
            assert forall|i: int| 0 <= i < rest.len() implies self.stands(#[trigger] rest[i], op) by {
                assert(rest[i] == ops[i]);
            }
            self.ran_all_alike(later, op, acts, rest, s, t, fuel);
            if self.ran_all(acts, rest, s, fuel) is Some {
                let u = self.ran_all(acts, rest, s, fuel)->0;
                let w = later.ran_all(acts, rest, t, fuel)->0;
                assert(ops.last() == ops[ops.len() - 1]);
                self.ran_alike(later, op, acts, ops.last(), u, w, fuel);
            }
        }
    }

    /// Running a region of an operation that has nothing to do with `op`, in states that agree,
    /// leads to states that agree, and, if branches stay in their regions, comes to an end only
    /// if it did.
    proof fn ran_region_alike(
        self,
        later: Ir,
        op: OpId,
        acts: spec_fn(OpId, Seq<int>, int) -> (Seq<int>, int),
        o: OpId,
        i: int,
        block: BlockId,
        s: State,
        t: State,
        fuel: nat,
    )
        requires
            self.wf(),
            self.placed(op),
            self.same_beside(later, op),
            self.stands(o, op),
            0 <= i < self.ops[o].regions.len(),
            self.blocks.contains_key(block),
            self.blocks[block].parent == self.ops[o].regions[i],
            self.agree(op, s, t),
        ensures
            ({
                let r = self.ops[o].regions[i];
                let end = self.ran_region(acts, r, block, s, fuel);
                let now = later.ran_region(acts, r, block, t, fuel);
                &&& end is Some ==> now is Some && now->0.block == end->0.block && self.agree(
                    op,
                    end->0.state,
                    now->0.state,
                )
                &&& self.branches_stay() && now is Some ==> end is Some
            }),
        decreases fuel, 1nat, 0nat,
    {
        let r = self.ops[o].regions[i];
        self.inside_kept(later, o, op, i);
        let ops = self.blocks[block].ops;
        let rest = ops.drop_last();
        if fuel > 0 && ops.len() > 0 {
            let less = (fuel - 1) as nat;
            let last = ops[ops.len() - 1];
            assert(self.all_stand(ops, op));
            assert(self.stands(last, op));
            assert(self.clear_to(last, op, 0));
            assert(self.same_op(later, last));
            assert forall|k: int| 0 <= k < rest.len() implies self.stands(
                #[trigger] rest[k],
                op,
            ) by {
                assert(rest[k] == ops[k]);
            }
            self.ran_all_alike(later, op, acts, rest, s, t, less);
            if self.ran_all(acts, rest, s, less) is Some && !self.ops[last].kind.closes() {
                let u = self.ran_all(acts, rest, s, less)->0;
                let w = later.ran_all(acts, rest, t, less)->0;
                self.led_alike(later, acts, op, last, u, w);
                if self.led(acts, last, u) is Some {
                    let to = self.led(acts, last, u)->0;
                    let there = later.led(acts, last, w)->0;
                    if self.branches_stay() {
                        self.led_stays(acts, block, u);
                    }
                    if self.blocks.contains_key(to.block) && self.blocks[to.block].parent == r {
                        self.ran_region_alike(
                            later,
                            op,
                            acts,
                            o,
                            i,
                            to.block,
                            to.state,
                            there.state,
                            less,
                        );
                    }
                }
            }
        }
    }
}

} // verus!
