//! Going on running: more steps change nothing, and paths from block to block can be joined.

use crate::cf::ops::{ExecuteRegionOp, ForOp, IfOp, NDForOp};
use crate::cf::semantics::{Arrival, State};
use crate::ir::model::Ir;
use crate::ir::types::{BlockId, OpId, OpKind, RegionId};
use vstd::prelude::*;

verus! {

impl State {
    /// Does `more` lead to where `run` leads, wherever that leads to anything?
    pub open spec fn extends(
        run: spec_fn(State) -> Option<State>,
        more: spec_fn(State) -> Option<State>,
    ) -> bool {
        forall|s: State| (#[trigger] run(s)) is Some ==> more(s) == run(s)
    }
}

impl ForOp {
    /// A loop that comes to an end does so with more rounds, and if its body may run longer.
    pub proof fn rounds_more(
        self,
        ir: Ir,
        run: spec_fn(State) -> Option<State>,
        more: spec_fn(State) -> Option<State>,
        upper: int,
        step: int,
        iv: int,
        iters: Seq<int>,
        s: State,
        count: nat,
        larger: nat,
    )
        requires
            State::extends(run, more),
            count <= larger,
            self.rounds(ir, run, upper, step, iv, iters, s, count) is Some,
        ensures
            self.rounds(ir, more, upper, step, iv, iters, s, larger) == self.rounds(
                ir,
                run,
                upper,
                step,
                iv,
                iters,
                s,
                count,
            ),
        decreases count,
    {
        if iv < upper {
            let start = s.with_args(self.entry(ir), seq![iv] + iters);
            assert(run(start) is Some);
            let end = run(start)->0;
            self.rounds_more(
                ir,
                run,
                more,
                upper,
                step,
                State::sum(iv, step),
                end.read(ir.ops[self.yield_op(ir)].operands),
                end,
                (count - 1) as nat,
                (larger - 1) as nat,
            );
        }
    }
}

impl NDForOp {
    /// Loops that come to an end do so with more rounds, and if their body may run longer.
    pub proof fn nest_more(
        self,
        ir: Ir,
        run: spec_fn(State) -> Option<State>,
        more: spec_fn(State) -> Option<State>,
        lowers: Seq<int>,
        uppers: Seq<int>,
        steps: Seq<int>,
        ivs: Seq<int>,
        s: State,
        count: nat,
        larger: nat,
    )
        requires
            State::extends(run, more),
            count <= larger,
            self.nest(ir, run, lowers, uppers, steps, ivs, s, count) is Some,
        ensures
            self.nest(ir, more, lowers, uppers, steps, ivs, s, larger) == self.nest(
                ir,
                run,
                lowers,
                uppers,
                steps,
                ivs,
                s,
                count,
            ),
        decreases count, 1nat,
    {
        if ivs.len() >= self.dims(ir) {
            assert(run(s.with_args(self.entry(ir), ivs)) is Some);
        } else {
            let iv = lowers[ivs.len() as int];
            self.along_more(ir, run, more, lowers, uppers, steps, ivs, iv, s, count, larger);
        }
    }

    pub proof fn along_more(
        self,
        ir: Ir,
        run: spec_fn(State) -> Option<State>,
        more: spec_fn(State) -> Option<State>,
        lowers: Seq<int>,
        uppers: Seq<int>,
        steps: Seq<int>,
        ivs: Seq<int>,
        iv: int,
        s: State,
        count: nat,
        larger: nat,
    )
        requires
            State::extends(run, more),
            count <= larger,
            self.along(ir, run, lowers, uppers, steps, ivs, iv, s, count) is Some,
        ensures
            self.along(ir, more, lowers, uppers, steps, ivs, iv, s, larger) == self.along(
                ir,
                run,
                lowers,
                uppers,
                steps,
                ivs,
                iv,
                s,
                count,
            ),
        decreases count, 0nat,
    {
        let d = ivs.len() as int;
        if iv < uppers[d] {
            let c = (count - 1) as nat;
            let l = (larger - 1) as nat;
            self.nest_more(ir, run, more, lowers, uppers, steps, ivs.push(iv), s, c, l);
            let end = self.nest(ir, run, lowers, uppers, steps, ivs.push(iv), s, c)->0;
            let next = State::sum(iv, steps[d]);
            self.along_more(ir, run, more, lowers, uppers, steps, ivs, next, end, c, l);
        }
    }
}

impl Ir {
    /// An operation that comes to an end does so within more steps.
    pub proof fn ran_more(
        self,
        acts: spec_fn(OpId, Seq<int>, int) -> (Seq<int>, int),
        op: OpId,
        s: State,
        fuel: nat,
        more: nat,
    )
        requires
            self.ran(acts, op, s, fuel) is Some,
            fuel <= more,
        ensures
            self.ran(acts, op, s, more) == self.ran(acts, op, s, fuel),
        decreases fuel, 3nat, 0nat,
    {
        let run = self.running(acts, op, 0, fuel);
        let longer = self.running(acts, op, 0, more);
        match self.ops[op].kind {
            OpKind::CfFor => {
                let this = ForOp { op };
                self.running_more(acts, op, 0, fuel, more);
                this.rounds_more(
                    self,
                    run,
                    longer,
                    (s.values)(this.upper_bound(self)),
                    (s.values)(this.step(self)),
                    (s.values)(this.lower_bound(self)),
                    s.read(this.iter_args_init(self)),
                    s,
                    fuel,
                    more,
                );
            },
            OpKind::CfNDFor => {
                let this = NDForOp { op };
                self.running_more(acts, op, 0, fuel, more);
                this.nest_more(
                    self,
                    run,
                    longer,
                    s.read(this.lower_bounds(self)),
                    s.read(this.upper_bounds(self)),
                    s.read(this.steps(self)),
                    Seq::empty(),
                    s,
                    fuel,
                    more,
                );
            },
            OpKind::CfExecuteRegion => {
                self.running_more(acts, op, 0, fuel, more);
                assert(run(s.with_args((ExecuteRegionOp { op }).entry(self), Seq::empty())) is Some);
            },
            OpKind::CfIf => {
                let this = IfOp { op };
                self.running_more(acts, op, 0, fuel, more);
                self.running_more(acts, op, 1, fuel, more);
                if (s.values)(this.condition(self)) != 0 {
                    assert(run(s.with_args(this.entry(self, 0), Seq::empty())) is Some);
                } else if this.has_else(self) {
                    assert(self.running(acts, op, 1, fuel)(
                        s.with_args(this.entry(self, 1), Seq::empty()),
                    ) is Some);
                }
            },
            _ => {},
        }
    }

    pub proof fn running_more(
        self,
        acts: spec_fn(OpId, Seq<int>, int) -> (Seq<int>, int),
        op: OpId,
        i: int,
        fuel: nat,
        more: nat,
    )
        requires
            fuel <= more,
        ensures
            State::extends(self.running(acts, op, i, fuel), self.running(acts, op, i, more)),
        decreases fuel, 2nat, 0nat,
    {
        let run = self.running(acts, op, i, fuel);
        assert forall|s: State| (#[trigger] run(s)) is Some implies self.running(
            acts,
            op,
            i,
            more,
        )(s) == run(s) by {
            self.ran_region_more(
                acts,
                self.ops[op].regions[i],
                self.entry(op, i),
                s,
                fuel,
                more,
            );
        }
    }

    /// Operations that come to an end do so within more steps.
    pub proof fn ran_all_more(
        self,
        acts: spec_fn(OpId, Seq<int>, int) -> (Seq<int>, int),
        ops: Seq<OpId>,
        s: State,
        fuel: nat,
        more: nat,
    )
        requires
            self.ran_all(acts, ops, s, fuel) is Some,
            fuel <= more,
        ensures
            self.ran_all(acts, ops, s, more) == self.ran_all(acts, ops, s, fuel),
        decreases fuel, 4nat, ops.len(),
    {
        if ops.len() > 0 {
            self.ran_all_more(acts, ops.drop_last(), s, fuel, more);
            let t = self.ran_all(acts, ops.drop_last(), s, fuel)->0;
            self.ran_more(acts, ops.last(), t, fuel, more);
        }
    }

    /// A region that comes to its end does so within more steps.
    pub proof fn ran_region_more(
        self,
        acts: spec_fn(OpId, Seq<int>, int) -> (Seq<int>, int),
        region: RegionId,
        block: BlockId,
        s: State,
        fuel: nat,
        more: nat,
    )
        requires
            self.ran_region(acts, region, block, s, fuel) is Some,
            fuel <= more,
        ensures
            self.ran_region(acts, region, block, s, more) == self.ran_region(
                acts,
                region,
                block,
                s,
                fuel,
            ),
        decreases fuel, 1nat, 0nat,
    {
        let ops = self.blocks[block].ops;
        let f = (fuel - 1) as nat;
        let m = (more - 1) as nat;
        self.ran_all_more(acts, ops.drop_last(), s, f, m);
        if !self.ops[ops.last()].kind.closes() {
            let t = self.ran_all(acts, ops.drop_last(), s, f)->0;
            let to = self.led(acts, ops.last(), t)->0;
            self.ran_region_more(acts, region, to.block, to.state, f, m);
        }
    }

    /// Control gets to where it got with fewer steps.
    proof fn went_more(
        self,
        acts: spec_fn(OpId, Seq<int>, int) -> (Seq<int>, int),
        region: RegionId,
        block: BlockId,
        s: State,
        n: nat,
        fuel: nat,
        more: nat,
    )
        requires
            self.went(acts, region, block, s, n, fuel) is Some,
            fuel <= more,
        ensures
            self.went(acts, region, block, s, n, more) == self.went(
                acts,
                region,
                block,
                s,
                n,
                fuel,
            ),
        decreases n,
    {
        if n > 0 {
            self.ran_all_more(acts, self.blocks[block].ops.drop_last(), s, fuel, more);
            let to = self.stepped(acts, block, s, fuel)->0;
            self.went_more(acts, region, to.block, to.state, (n - 1) as nat, fuel, more);
        }
    }

    /// Going on from where one got to is getting there.
    proof fn went_on(
        self,
        acts: spec_fn(OpId, Seq<int>, int) -> (Seq<int>, int),
        region: RegionId,
        block: BlockId,
        s: State,
        n: nat,
        mid: BlockId,
        t: State,
        m: nat,
        fuel: nat,
    )
        requires
            self.went(acts, region, block, s, n, fuel) == Some(Arrival { block: mid, state: t }),
        ensures
            self.went(acts, region, block, s, n + m, fuel) == self.went(
                acts,
                region,
                mid,
                t,
                m,
                fuel,
            ),
        decreases n,
    {
        if n > 0 {
            let to = self.stepped(acts, block, s, fuel)->0;
            self.went_on(acts, region, to.block, to.state, (n - 1) as nat, mid, t, m, fuel);
        }
    }

    /// What can be reached from what can be reached can be reached.
    pub proof fn reaches_on(
        self,
        acts: spec_fn(OpId, Seq<int>, int) -> (Seq<int>, int),
        region: RegionId,
        block: BlockId,
        s: State,
        mid: BlockId,
        t: State,
        dest: BlockId,
        u: State,
    )
        requires
            self.reaches(acts, region, block, s, mid, t),
            self.reaches(acts, region, mid, t, dest, u),
        ensures
            self.reaches(acts, region, block, s, dest, u),
    {
        let (n, f) = choose|n: nat, fuel: nat|
            #[trigger] self.went(acts, region, block, s, n, fuel) == Some(
                Arrival { block: mid, state: t },
            );
        let (m, g) = choose|n: nat, fuel: nat|
            #[trigger] self.went(acts, region, mid, t, n, fuel) == Some(
                Arrival { block: dest, state: u },
            );
        let more = if f <= g { g } else { f };
        self.went_more(acts, region, block, s, n, f, more);
        self.went_more(acts, region, mid, t, m, g, more);
        self.went_on(acts, region, block, s, n, mid, t, m, more);
        assert(self.went(acts, region, block, s, n + m, more) == Some(
            Arrival { block: dest, state: u },
        ));
    }

    /// Where one step within the region leads can be reached.
    pub proof fn step_reaches(
        self,
        acts: spec_fn(OpId, Seq<int>, int) -> (Seq<int>, int),
        region: RegionId,
        block: BlockId,
        s: State,
        fuel: nat,
        dest: BlockId,
        t: State,
    )
        requires
            self.stepped(acts, block, s, fuel) == Some(Arrival { block: dest, state: t }),
            self.blocks.contains_key(dest),
            self.blocks[dest].parent == region,
        ensures
            self.reaches(acts, region, block, s, dest, t),
    {
        assert(self.went(acts, region, dest, t, 0, fuel) == Some(
            Arrival { block: dest, state: t },
        ));
        assert(self.went(acts, region, block, s, 1, fuel) == Some(
            Arrival { block: dest, state: t },
        ));
    }

    /// Where one is can be reached.
    pub proof fn stays(
        self,
        acts: spec_fn(OpId, Seq<int>, int) -> (Seq<int>, int),
        region: RegionId,
        block: BlockId,
        s: State,
    )
        ensures
            self.reaches(acts, region, block, s, block, s),
    {
        assert(self.went(acts, region, block, s, 0, 0) == Some(Arrival { block, state: s }));
    }

    /// The run of a region comes to the end to which it comes from a block that can be reached.
    /// Returns the number of steps that is enough.
    pub proof fn ran_region_from(
        self,
        acts: spec_fn(OpId, Seq<int>, int) -> (Seq<int>, int),
        region: RegionId,
        block: BlockId,
        s: State,
        dest: BlockId,
        t: State,
        fuel: nat,
    ) -> (more: nat)
        requires
            self.reaches(acts, region, block, s, dest, t),
            self.ran_region(acts, region, dest, t, fuel) is Some,
        ensures
            self.ran_region(acts, region, block, s, more) == self.ran_region(
                acts,
                region,
                dest,
                t,
                fuel,
            ),
    {
        let (n, f) = choose|n: nat, fuel: nat|
            #[trigger] self.went(acts, region, block, s, n, fuel) == Some(
                Arrival { block: dest, state: t },
            );
        let most = if f <= fuel { fuel } else { f };
        self.went_more(acts, region, block, s, n, f, most);
        self.ran_region_more(acts, region, dest, t, fuel, most);
        self.ran_region_went(acts, region, block, s, n, dest, t, most);
        most + n
    }

    proof fn ran_region_went(
        self,
        acts: spec_fn(OpId, Seq<int>, int) -> (Seq<int>, int),
        region: RegionId,
        block: BlockId,
        s: State,
        n: nat,
        dest: BlockId,
        t: State,
        fuel: nat,
    )
        requires
            self.went(acts, region, block, s, n, fuel) == Some(Arrival { block: dest, state: t }),
            self.ran_region(acts, region, dest, t, fuel) is Some,
        ensures
            self.ran_region(acts, region, block, s, fuel + n) == self.ran_region(
                acts,
                region,
                dest,
                t,
                fuel,
            ),
        decreases n,
    {
        if n > 0 {
            let to = self.stepped(acts, block, s, fuel)->0;
            let rest = self.blocks[block].ops.drop_last();
            let less = (n - 1) as nat;
            self.ran_region_went(acts, region, to.block, to.state, less, dest, t, fuel);
            self.ran_all_more(acts, rest, s, fuel, fuel + less);
        }
    }

    /// Operations come to the same end within any number of steps that is enough.
    pub proof fn ran_all_once(
        self,
        acts: spec_fn(OpId, Seq<int>, int) -> (Seq<int>, int),
        ops: Seq<OpId>,
        s: State,
        fuel: nat,
        other: nat,
    )
        requires
            self.ran_all(acts, ops, s, fuel) is Some,
            self.ran_all(acts, ops, s, other) is Some,
        ensures
            self.ran_all(acts, ops, s, fuel) == self.ran_all(acts, ops, s, other),
    {
        if fuel <= other {
            self.ran_all_more(acts, ops, s, fuel, other);
        } else {
            self.ran_all_more(acts, ops, s, other, fuel);
        }
    }

    /// A region comes to the same end within any number of steps that is enough.
    pub proof fn ran_region_once(
        self,
        acts: spec_fn(OpId, Seq<int>, int) -> (Seq<int>, int),
        region: RegionId,
        block: BlockId,
        s: State,
        fuel: nat,
        other: nat,
    )
        requires
            self.ran_region(acts, region, block, s, fuel) is Some,
            self.ran_region(acts, region, block, s, other) is Some,
        ensures
            self.ran_region(acts, region, block, s, fuel) == self.ran_region(
                acts,
                region,
                block,
                s,
                other,
            ),
    {
        if fuel <= other {
            self.ran_region_more(acts, region, block, s, fuel, other);
        } else {
            self.ran_region_more(acts, region, block, s, other, fuel);
        }
    }

    /// So does a region of an operation.
    pub proof fn running_once(
        self,
        acts: spec_fn(OpId, Seq<int>, int) -> (Seq<int>, int),
        op: OpId,
        i: int,
        s: State,
        fuel: nat,
        other: nat,
    )
        requires
            self.running(acts, op, i, fuel)(s) is Some,
            self.running(acts, op, i, other)(s) is Some,
        ensures
            self.running(acts, op, i, fuel)(s) == self.running(acts, op, i, other)(s),
    {
        let region = self.ops[op].regions[i];
        self.ran_region_once(acts, region, self.entry(op, i), s, fuel, other);
    }

    /// From a block that the run of a region reaches, it comes to the end to which it comes.
    /// Returns a number of steps that is enough, which is smaller if the block is another one.
    pub proof fn ran_region_after(
        self,
        acts: spec_fn(OpId, Seq<int>, int) -> (Seq<int>, int),
        region: RegionId,
        block: BlockId,
        s: State,
        dest: BlockId,
        t: State,
        fuel: nat,
    ) -> (less: nat)
        requires
            self.reaches(acts, region, block, s, dest, t),
            self.ran_region(acts, region, block, s, fuel) is Some,
        ensures
            self.ran_region(acts, region, dest, t, less) == self.ran_region(
                acts,
                region,
                block,
                s,
                fuel,
            ),
            less <= fuel,
            block != dest ==> less < fuel,
    {
        let (n, f) = choose|n: nat, fuel: nat|
            #[trigger] self.went(acts, region, block, s, n, fuel) == Some(
                Arrival { block: dest, state: t },
            );
        self.ran_region_gone(acts, region, block, s, n, dest, t, f, fuel);
        (fuel - n) as nat
    }

    proof fn ran_region_gone(
        self,
        acts: spec_fn(OpId, Seq<int>, int) -> (Seq<int>, int),
        region: RegionId,
        block: BlockId,
        s: State,
        n: nat,
        dest: BlockId,
        t: State,
        f: nat,
        fuel: nat,
    )
        requires
            self.went(acts, region, block, s, n, f) == Some(Arrival { block: dest, state: t }),
            self.ran_region(acts, region, block, s, fuel) is Some,
        ensures
            n <= fuel,
            self.ran_region(acts, region, dest, t, (fuel - n) as nat) == self.ran_region(
                acts,
                region,
                block,
                s,
                fuel,
            ),
        decreases n,
    {
        if n > 0 {
            let rest = self.blocks[block].ops.drop_last();
            let less = (fuel - 1) as nat;
            self.ran_all_once(acts, rest, s, f, less);
            let to = self.stepped(acts, block, s, f)->0;
            let m = (n - 1) as nat;
            self.ran_region_gone(acts, region, to.block, to.state, m, dest, t, f, less);
        }
    }
}

} // verus!
