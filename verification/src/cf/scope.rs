//! What running an operation leaves as it is.

use crate::cf::ops::{ExecuteRegionOp, ForOp, IfOp, NDForOp};
use crate::cf::semantics::State;
use crate::ir::model::Ir;
use crate::ir::types::{BlockId, OpId, OpKind, RegionId, Value};
use vstd::prelude::*;

verus! {

impl State {
    /// Does running leave a value as it is?
    pub open spec fn leaves(run: spec_fn(State) -> Option<State>, v: Value) -> bool {
        forall|s: State|
            (#[trigger] run(s)) is Some ==> (run(s)->0.values)(v) == (s.values)(v)
    }
}

impl Ir {
    /// Is this a result of the operation?
    pub open spec fn is_result(v: Value, op: OpId) -> bool {
        v matches Value::OpResult { op: o, .. } && o == op
    }

    /// Is this an argument of the block?
    pub open spec fn is_argument(v: Value, block: BlockId) -> bool {
        v matches Value::BlockArgument { block: b, .. } && b == block
    }

    /// Is the value neither a result of the operation nor, down to the given depth, defined in
    /// its regions?
    pub open spec fn fixed_to(self, o: OpId, v: Value, depth: nat) -> bool
        decreases depth,
    {
        &&& !Ir::is_result(v, o)
        &&& depth > 0 ==> {
            &&& forall|b: BlockId| #[trigger]
                self.blocks.contains_key(b) && self.ops[o].regions.contains(self.blocks[b].parent)
                    ==> !Ir::is_argument(v, b)
            &&& forall|b: BlockId, i: int|
                #![trigger self.blocks[b].ops[i]]
                self.blocks.contains_key(b) && self.ops[o].regions.contains(self.blocks[b].parent)
                    && 0 <= i < self.blocks[b].ops.len() ==> self.fixed_to(
                    self.blocks[b].ops[i],
                    v,
                    (depth - 1) as nat,
                )
        }
    }

    /// Is the value neither a result of the operation nor defined in its regions?
    pub open spec fn fixed_by(self, o: OpId, v: Value) -> bool {
        forall|depth: nat| #[trigger] self.fixed_to(o, v, depth)
    }

    /// Does a branch in the region lead to the block?
    pub open spec fn targeted_in(self, region: RegionId, block: BlockId) -> bool {
        exists|b: BlockId, i: int|
            #![trigger self.blocks[b].ops[i]]
            {
                &&& self.blocks.contains_key(b)
                &&& self.blocks[b].parent == region
                &&& 0 <= i < self.blocks[b].ops.len()
                &&& self.ops[self.blocks[b].ops[i]].successors.contains(block)
            }
    }

    /// Does nothing in the region define the value, once control is in the region?
    pub open spec fn fixed_in(self, region: RegionId, v: Value) -> bool {
        &&& forall|b: BlockId| #[trigger]
            self.blocks.contains_key(b) && self.blocks[b].parent == region && Ir::is_argument(v, b)
                ==> !self.targeted_in(region, b)
        &&& forall|b: BlockId, i: int|
            #![trigger self.blocks[b].ops[i]]
            self.blocks.contains_key(b) && self.blocks[b].parent == region && 0 <= i
                < self.blocks[b].ops.len() ==> self.fixed_by(self.blocks[b].ops[i], v)
    }

    /// What an operation leaves as it is, its regions do too.
    pub proof fn fixed_inside(self, o: OpId, v: Value, i: int)
        requires
            self.fixed_by(o, v),
            0 <= i < self.ops[o].regions.len(),
        ensures
            !Ir::is_result(v, o),
            self.fixed_in(self.ops[o].regions[i], v),
            forall|b: BlockId| #[trigger]
                self.blocks.contains_key(b) && self.blocks[b].parent == self.ops[o].regions[i]
                    ==> !Ir::is_argument(v, b),
    {
        let region = self.ops[o].regions[i];
        assert(self.ops[o].regions.contains(region));
        assert(self.fixed_to(o, v, 1));
        assert forall|b: BlockId, k: int|
            #![trigger self.blocks[b].ops[k]]
            self.blocks.contains_key(b) && self.blocks[b].parent == region && 0 <= k
                < self.blocks[b].ops.len() implies self.fixed_by(self.blocks[b].ops[k], v) by {
            assert forall|depth: nat| #[trigger]
                self.fixed_to(self.blocks[b].ops[k], v, depth) by {
                assert(self.fixed_to(o, v, depth + 1));
            }
        }
    }
}

impl ForOp {
    /// A loop leaves as it is what its body leaves as it is.
    proof fn rounds_leave(
        self,
        ir: Ir,
        run: spec_fn(State) -> Option<State>,
        upper: int,
        step: int,
        iv: int,
        iters: Seq<int>,
        s: State,
        count: nat,
        v: Value,
    )
        requires
            State::leaves(run, v),
            !Ir::is_result(v, self.op),
            !Ir::is_argument(v, self.entry(ir)),
            self.rounds(ir, run, upper, step, iv, iters, s, count) is Some,
        ensures
            (self.rounds(ir, run, upper, step, iv, iters, s, count)->0.values)(v) == (s.values)(v),
        decreases count,
    {
        if iv < upper {
            let start = s.with_args(self.entry(ir), seq![iv] + iters);
            assert(run(start) is Some);
            let end = run(start)->0;
            self.rounds_leave(
                ir,
                run,
                upper,
                step,
                State::sum(iv, step),
                end.read(ir.ops[self.yield_op(ir)].operands),
                end,
                (count - 1) as nat,
                v,
            );
        }
    }
}

impl NDForOp {
    /// Loops leave as it is what their body leaves as it is.
    pub proof fn nest_leaves(
        self,
        ir: Ir,
        run: spec_fn(State) -> Option<State>,
        lowers: Seq<int>,
        uppers: Seq<int>,
        steps: Seq<int>,
        ivs: Seq<int>,
        s: State,
        count: nat,
        v: Value,
    )
        requires
            State::leaves(run, v),
            !Ir::is_argument(v, self.entry(ir)),
            self.nest(ir, run, lowers, uppers, steps, ivs, s, count) is Some,
        ensures
            (self.nest(ir, run, lowers, uppers, steps, ivs, s, count)->0.values)(v) == (s.values)(
                v,
            ),
        decreases count, 1nat,
    {
        if ivs.len() >= self.dims(ir) {
            assert(run(s.with_args(self.entry(ir), ivs)) is Some);
        } else {
            let iv = lowers[ivs.len() as int];
            self.along_leaves(ir, run, lowers, uppers, steps, ivs, iv, s, count, v);
        }
    }

    proof fn along_leaves(
        self,
        ir: Ir,
        run: spec_fn(State) -> Option<State>,
        lowers: Seq<int>,
        uppers: Seq<int>,
        steps: Seq<int>,
        ivs: Seq<int>,
        iv: int,
        s: State,
        count: nat,
        v: Value,
    )
        requires
            State::leaves(run, v),
            !Ir::is_argument(v, self.entry(ir)),
            self.along(ir, run, lowers, uppers, steps, ivs, iv, s, count) is Some,
        ensures
            (self.along(ir, run, lowers, uppers, steps, ivs, iv, s, count)->0.values)(v) == (
            s.values)(v),
        decreases count, 0nat,
    {
        let d = ivs.len() as int;
        if iv < uppers[d] {
            let c = (count - 1) as nat;
            self.nest_leaves(ir, run, lowers, uppers, steps, ivs.push(iv), s, c, v);
            let end = self.nest(ir, run, lowers, uppers, steps, ivs.push(iv), s, c)->0;
            let next = State::sum(iv, steps[d]);
            self.along_leaves(ir, run, lowers, uppers, steps, ivs, next, end, c, v);
        }
    }
}

impl Ir {
    /// An operation changes nothing but its results and what is defined in its regions.
    pub proof fn ran_leaves(
        self,
        acts: spec_fn(OpId, Seq<int>, int) -> (Seq<int>, int),
        op: OpId,
        s: State,
        fuel: nat,
        v: Value,
    )
        requires
            self.wf(),
            self.fixed_by(op, v),
            self.ran(acts, op, s, fuel) is Some,
        ensures
            (self.ran(acts, op, s, fuel)->0.values)(v) == (s.values)(v),
        decreases fuel, 3nat, 0nat,
    {
        assert(self.fixed_to(op, v, 0));
        let run = self.running(acts, op, 0, fuel);
        match self.ops[op].kind {
            OpKind::CfFor => {
                let this = ForOp { op };
                self.running_leaves(acts, op, 0, fuel, v);
                let upper = (s.values)(this.upper_bound(self));
                let lower = (s.values)(this.lower_bound(self));
                let iters = s.read(this.iter_args_init(self));
                this.rounds_leave(
                    self,
                    run,
                    upper,
                    (s.values)(this.step(self)),
                    lower,
                    iters,
                    s,
                    fuel,
                    v,
                );
            },
            OpKind::CfNDFor => {
                let this = NDForOp { op };
                self.running_leaves(acts, op, 0, fuel, v);
                let lowers = s.read(this.lower_bounds(self));
                let uppers = s.read(this.upper_bounds(self));
                let steps = s.read(this.steps(self));
                this.nest_leaves(self, run, lowers, uppers, steps, Seq::empty(), s, fuel, v);
            },
            OpKind::CfExecuteRegion => {
                self.running_leaves(acts, op, 0, fuel, v);
                assert(run(s.with_args((ExecuteRegionOp { op }).entry(self), Seq::empty())) is Some);
            },
            OpKind::CfIf => {
                let this = IfOp { op };
                if (s.values)(this.condition(self)) != 0 {
                    self.running_leaves(acts, op, 0, fuel, v);
                    assert(run(s.with_args(this.entry(self, 0), Seq::empty())) is Some);
                } else if this.has_else(self) {
                    self.running_leaves(acts, op, 1, fuel, v);
                    assert(self.running(acts, op, 1, fuel)(
                        s.with_args(this.entry(self, 1), Seq::empty()),
                    ) is Some);
                }
            },
            _ => {},
        }
    }

    pub proof fn running_leaves(
        self,
        acts: spec_fn(OpId, Seq<int>, int) -> (Seq<int>, int),
        op: OpId,
        i: int,
        fuel: nat,
        v: Value,
    )
        requires
            self.wf(),
            self.fixed_by(op, v),
        ensures
            State::leaves(self.running(acts, op, i, fuel), v),
            self.has_body(op, i) ==> !Ir::is_argument(v, self.entry(op, i)),
        decreases fuel, 2nat, 0nat,
    {
        let run = self.running(acts, op, i, fuel);
        if self.has_body(op, i) {
            self.fixed_inside(op, v, i);
            self.entry_exit_in_range(op, i);
        }
        assert forall|s: State| (#[trigger] run(s)) is Some implies (run(s)->0.values)(v) == (
        s.values)(v) by {
            self.ran_region_leaves(
                acts,
                self.ops[op].regions[i],
                self.entry(op, i),
                s,
                fuel,
                v,
            );
        }
    }

    /// Operations change nothing but their results and what is defined in their regions.
    pub proof fn ran_all_leaves(
        self,
        acts: spec_fn(OpId, Seq<int>, int) -> (Seq<int>, int),
        ops: Seq<OpId>,
        s: State,
        fuel: nat,
        v: Value,
    )
        requires
            self.wf(),
            forall|i: int| 0 <= i < ops.len() ==> self.fixed_by(#[trigger] ops[i], v),
            self.ran_all(acts, ops, s, fuel) is Some,
        ensures
            (self.ran_all(acts, ops, s, fuel)->0.values)(v) == (s.values)(v),
        decreases fuel, 4nat, ops.len(),
    {
        if ops.len() > 0 {
            let rest = ops.drop_last();
            assert forall|i: int| 0 <= i < rest.len() implies self.fixed_by(
                #[trigger] rest[i],
                v,
            ) by {
                assert(rest[i] == ops[i]);
            }
            self.ran_all_leaves(acts, rest, s, fuel, v);
            assert(ops.last() == ops[ops.len() - 1]);
            let t = self.ran_all(acts, rest, s, fuel)->0;
            self.ran_leaves(acts, ops.last(), t, fuel, v);
        }
    }

    /// A branch changes nothing but the arguments of the block that it leads to, which is one of
    /// its successors.
    proof fn led_leaves(
        self,
        acts: spec_fn(OpId, Seq<int>, int) -> (Seq<int>, int),
        o: OpId,
        s: State,
        v: Value,
    )
        requires
            self.led(acts, o, s) is Some,
        ensures
            self.ops[o].successors.contains(self.led(acts, o, s)->0.block),
            !Ir::is_argument(v, self.led(acts, o, s)->0.block) ==> (self.led(
                acts,
                o,
                s,
            )->0.state.values)(v) == (s.values)(v),
    {
        let view = self.ops[o];
        assert(view.successors.contains(view.successors[0]));
        if view.successors.len() > 1 {
            assert(view.successors.contains(view.successors[1]));
        }
        let (numbers, _) = acts(o, s.read(view.operands), s.world);
        if 0 <= numbers[0] < view.successors.len() {
            assert(view.successors.contains(view.successors[numbers[0]]));
        }
    }

    /// A region changes nothing but what is defined in it.
    pub proof fn ran_region_leaves(
        self,
        acts: spec_fn(OpId, Seq<int>, int) -> (Seq<int>, int),
        region: RegionId,
        block: BlockId,
        s: State,
        fuel: nat,
        v: Value,
    )
        requires
            self.wf(),
            self.blocks.contains_key(block),
            self.blocks[block].parent == region,
            self.ran_region(acts, region, block, s, fuel) is Some,
            self.fixed_in(region, v),
        ensures
            (self.ran_region(acts, region, block, s, fuel)->0.state.values)(v) == (s.values)(v),
        decreases fuel, 1nat, 0nat,
    {
        let ops = self.blocks[block].ops;
        let rest = ops.drop_last();
        let less = (fuel - 1) as nat;
        assert forall|i: int| 0 <= i < rest.len() implies self.fixed_by(#[trigger] rest[i], v) by {
            assert(rest[i] == self.blocks[block].ops[i]);
        }
        self.ran_all_leaves(acts, rest, s, less, v);
        if !self.ops[ops.last()].kind.closes() {
            let t = self.ran_all(acts, rest, s, less)->0;
            self.led_leaves(acts, ops.last(), t, v);
            let to = self.led(acts, ops.last(), t)->0;
            assert(self.ops[self.blocks[block].ops[ops.len() - 1]].successors.contains(to.block));
            assert(self.targeted_in(region, to.block));
            self.ran_region_leaves(acts, region, to.block, to.state, less, v);
        }
    }
}

} // verus!
