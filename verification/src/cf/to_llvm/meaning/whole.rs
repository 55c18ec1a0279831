//! What surrounds an operation does after its lowering what it did before.

use crate::cf::ops::{ForOp, IfOp, NDForOp};
use crate::cf::semantics::{Arrival, State};
use crate::ir::model::Ir;
use crate::ir::types::{BlockId, OpId, OpKind, RegionId, Value};
use vstd::prelude::*;

verus! {

/// What has become of an operation.
pub struct Replacement {
    /// The operation that is no longer there.
    pub op: OpId,
    /// The operation in its place, if what follows it is still in the same block.
    pub new: OpId,
    /// The block that now holds what follows it.
    pub cont: BlockId,
    /// The block whose arguments, from the one at `first` on, stand for its results.
    pub block: BlockId,
    pub first: int,
}

impl Replacement {
    /// The values that stand for the given ones.
    pub open spec fn stand_ins(self, vs: Seq<Value>) -> Seq<Value> {
        vs.map_values(|v: Value| Ir::substituted(v, self.op, self.block, self.first))
    }
}

impl Ir {
    /// Is the operation `o` there, and neither `op` nor directly in it?
    pub open spec fn outside(self, o: OpId, op: OpId) -> bool {
        &&& self.ops.contains_key(o)
        &&& o != op
        &&& self.ops[o].parent is Some ==> self.regions[self.blocks[self.holder(o)].parent].parent
            != op
    }

    /// Do two states, before and after, agree on all that was there before?
    pub open spec fn matches_up(self, way: Replacement, s: State, t: State) -> bool {
        self.agree_behind(way.op, way.block, way.first, s, t)
    }

    /// Where the end of a block is now.
    pub open spec fn moved_end(self, way: Replacement, b: BlockId) -> BlockId {
        if b == self.holder(way.op) {
            way.cont
        } else {
            b
        }
    }

    /// Is an operation still the same, but for what stands for its operands?
    pub open spec fn same_but_renamed(self, later: Ir, way: Replacement, o: OpId) -> bool {
        &&& later.ops.contains_key(o)
        &&& later.ops[o].kind == self.ops[o].kind
        &&& later.ops[o].results == self.ops[o].results
        &&& later.ops[o].operands == way.stand_ins(self.ops[o].operands)
        &&& later.ops[o].successors == self.ops[o].successors
        &&& later.ops[o].regions == self.ops[o].regions
        &&& later.ops[o].segments == self.ops[o].segments
    }

    /// Is all that surrounds the operation still there?
    pub open spec fn surrounded(self, later: Ir, way: Replacement) -> bool {
        let holder = self.holder(way.op);
        let ops = self.blocks[holder].ops;
        let p = self.position(way.op);
        &&& self.placed(way.op)
        &&& !self.ops[way.op].kind.closes()
        &&& self.regions[self.blocks[holder].parent].parent != way.op
        &&& self.blocks.contains_key(way.block) ==> self.ops[way.op].results.len() == 0
        &&& forall|o: OpId| #[trigger]
            self.outside(o, way.op) ==> self.same_but_renamed(later, way, o)
        &&& forall|b: BlockId| #[trigger]
            self.blocks.contains_key(b) && self.regions[self.blocks[b].parent].parent != way.op
                ==> later.blocks.contains_key(b) && later.blocks[b].parent == self.blocks[b].parent
                && (b != holder ==> later.blocks[b].ops == self.blocks[b].ops)
        &&& forall|r: RegionId| #[trigger]
            self.regions.contains_key(r) && self.regions[r].parent != way.op
                && self.regions[r].blocks.len() > 0 ==> later.regions[r].blocks.len() > 0
                && later.regions[r].blocks.first() == self.regions[r].blocks.first()
                && later.regions[r].blocks.last() == self.moved_end(
                way,
                self.regions[r].blocks.last(),
            )
        &&& later.blocks.contains_key(way.cont)
        &&& later.blocks[way.cont].parent == self.blocks[holder].parent
        &&& if way.cont == holder {
            later.blocks[holder].ops == ops.update(p, way.new)
        } else {
            later.blocks[way.cont].ops == ops.skip(p + 1)
        }
    }

    /// Does control, from a state at the start of the block that held the operation, get to
    /// where the operation was, in a state that agrees with the one behind the operation?
    pub open spec fn crossed(
        self,
        later: Ir,
        way: Replacement,
        acts: spec_fn(OpId, Seq<int>, int) -> (Seq<int>, int),
        done: State,
        t: State,
    ) -> bool {
        let holder = self.holder(way.op);
        let first = self.blocks[holder].ops.take(self.position(way.op));
        if way.cont == holder {
            exists|f: nat|
                {
                    let u = #[trigger] later.ran_all(acts, first.push(way.new), t, f);
                    u is Some && self.matches_up(way, done, u->0)
                }
        } else {
            exists|u: State|
                #[trigger] later.reaches(
                    acts,
                    self.blocks[holder].parent,
                    holder,
                    t,
                    way.cont,
                    u,
                ) && self.matches_up(way, done, u)
        }
    }

    /// Does what is now in the place of the operation do what the operation did?
    pub open spec fn crosses(
        self,
        later: Ir,
        way: Replacement,
        acts: spec_fn(OpId, Seq<int>, int) -> (Seq<int>, int),
    ) -> bool {
        if self.blocks[self.holder(way.op)].ops.last() == way.op {
            &&& !later.ops[way.new].kind.closes()
            &&& way.cont == self.holder(way.op)
            &&& forall|s: State, t: State| #[trigger]
                self.matches_up(way, s, t) && self.led(acts, way.op, s) is Some ==> later.led(
                    acts,
                    way.new,
                    t,
                ) is Some && later.led(acts, way.new, t)->0.block == self.led(
                    acts,
                    way.op,
                    s,
                )->0.block
                    && self.matches_up(
                    way,
                    self.led(acts, way.op, s)->0.state,
                    later.led(acts, way.new, t)->0.state,
                )
        } else {
            forall|s: State, t: State, fuel: nat|
                #![trigger self.matches_up(way, s, t), self.ran_through(acts, way.op, s, fuel)]
                self.matches_up(way, s, t) && self.ran_through(acts, way.op, s, fuel) is Some
                    ==> self.crossed(
                    later,
                    way,
                    acts,
                    self.ran_through(acts, way.op, s, fuel)->0,
                    t,
                )
        }
    }

    /// The operation was replaced by something that does the same, and all that surrounds it is
    /// still there.
    pub open spec fn replaced_by(
        self,
        later: Ir,
        way: Replacement,
        acts: spec_fn(OpId, Seq<int>, int) -> (Seq<int>, int),
    ) -> bool {
        &&& self.wf()
        &&& self.surrounded(later, way)
        &&& self.crosses(later, way, acts)
    }

    /// What stands for values is read as they were.
    pub(crate) proof fn stand_ins_read(self, way: Replacement, vs: Seq<Value>, s: State, t: State)
        requires
            self.matches_up(way, s, t),
            self.has_values(vs),
        ensures
            t.read(way.stand_ins(vs)) == s.read(vs),
    {
        assert forall|i: int| 0 <= i < vs.len() implies (t.values)(
            Ir::substituted(#[trigger] vs[i], way.op, way.block, way.first),
        ) == (s.values)(vs[i]) by {
            assert(self.has_value(vs[i]));
        }
        assert(t.read(way.stand_ins(vs)) =~= s.read(vs));
    }

    /// What stands for the operands of an operation is read as they were.
    pub(crate) proof fn operands_match(
        self,
        later: Ir,
        way: Replacement,
        o: OpId,
        s: State,
        t: State,
    )
        requires
            self.wf(),
            self.ops.contains_key(o),
            self.same_but_renamed(later, way, o),
            self.matches_up(way, s, t),
        ensures
            t.read(later.ops[o].operands) == s.read(self.ops[o].operands),
            later.ops[o].operands.len() == self.ops[o].operands.len(),
            forall|i: int| #![trigger later.ops[o].operands[i]]
                0 <= i < self.ops[o].operands.len() ==> (t.values)(later.ops[o].operands[i]) == (
                s.values)(self.ops[o].operands[i]),
            forall|k: int| #![trigger self.ops[o].segment(k)]
                self.ops[o].has_segment(k) ==> later.ops[o].has_segment(k)
                    && later.ops[o].segment(k).len() == self.ops[o].segment(k).len() && t.read(
                    later.ops[o].segment(k),
                ) == s.read(self.ops[o].segment(k)) && forall|j: int|
                    #![trigger self.ops[o].segment(k)[j]]
                    0 <= j < self.ops[o].segment(k).len() ==> (t.values)(later.ops[o].segment(k)[j])
                        == (s.values)(self.ops[o].segment(k)[j]),
    {
        let view = self.ops[o];
        let now = later.ops[o];
        self.operands_there(o);
        self.stand_ins_read(way, view.operands, s, t);
        assert forall|i: int| #![trigger now.operands[i]]
            0 <= i < view.operands.len() implies (t.values)(now.operands[i]) == (s.values)(
            view.operands[i],
        ) by {
            assert(self.has_value(view.operands[i]));
        }
        assert forall|k: int| #![trigger view.segment(k)]
            view.has_segment(k) implies now.has_segment(k) && now.segment(k).len()
            == view.segment(k).len() && t.read(now.segment(k)) == s.read(view.segment(k))
            && forall|j: int| #![trigger view.segment(k)[j]]
                0 <= j < view.segment(k).len() ==> (t.values)(now.segment(k)[j]) == (s.values)(
                    view.segment(k)[j],
                ) by {
            view.segment_in_range(k);
            let start = view.segment_start(k);
            assert(now.segment_start(k) == start);
            assert(now.segment_start(k + 1) == view.segment_start(k + 1));
            assert forall|j: int| #![trigger view.segment(k)[j]]
                0 <= j < view.segment(k).len() implies (t.values)(now.segment(k)[j]) == (
            s.values)(view.segment(k)[j]) by {
                assert(view.segment(k)[j] == view.operands[start + j]);
                assert(now.segment(k)[j] == now.operands[start + j]);
            }
            assert(t.read(now.segment(k)) =~= s.read(view.segment(k)));
        }
    }

    /// Setting the arguments of a block that was there before keeps the agreement.
    pub(crate) proof fn args_match(
        self,
        later: Ir,
        way: Replacement,
        b: BlockId,
        numbers: Seq<int>,
        s: State,
        t: State,
    )
        requires
            self.surrounded(later, way),
            self.blocks.contains_key(b),
            self.matches_up(way, s, t),
        ensures
            self.matches_up(way, s.with_args(b, numbers), t.with_args(b, numbers)),
    {
        let x = s.with_args(b, numbers);
        let y = t.with_args(b, numbers);
        assert forall|v: Value| #[trigger] self.has_value(v) implies (x.values)(v) == (y.values)(
            Ir::substituted(v, way.op, way.block, way.first),
        ) by {}
    }

    /// Setting the results of an operation that is still there keeps the agreement.
    pub(crate) proof fn results_match(
        self,
        way: Replacement,
        o: OpId,
        numbers: Seq<int>,
        s: State,
        t: State,
    )
        requires
            o != way.op,
            self.matches_up(way, s, t),
        ensures
            self.matches_up(way, s.with_results(o, numbers), t.with_results(o, numbers)),
    {
        let x = s.with_results(o, numbers);
        let y = t.with_results(o, numbers);
        assert forall|v: Value| #[trigger] self.has_value(v) implies (x.values)(v) == (y.values)(
            Ir::substituted(v, way.op, way.block, way.first),
        ) by {}
    }

    /// The same branch leads to the same block, and to states that agree.
    pub(crate) proof fn led_matches(
        self,
        later: Ir,
        way: Replacement,
        acts: spec_fn(OpId, Seq<int>, int) -> (Seq<int>, int),
        o: OpId,
        s: State,
        t: State,
    )
        requires
            self.wf(),
            self.surrounded(later, way),
            self.outside(o, way.op),
            self.matches_up(way, s, t),
            self.led(acts, o, s) is Some,
        ensures
            later.led(acts, o, t) is Some,
            later.led(acts, o, t)->0.block == self.led(acts, o, s)->0.block,
            self.matches_up(way, self.led(acts, o, s)->0.state, later.led(acts, o, t)->0.state),
    {
        let view = self.ops[o];
        let now = later.ops[o];
        self.operands_match(later, way, o, s, t);
        self.successors_there(o);
        match view.kind {
            OpKind::CfBr | OpKind::LlvmBr => {
                let numbers = s.read(view.operands);
                self.args_match(later, way, view.successors[0], numbers, s, t);
            },
            OpKind::Other(_) => {
                let (numbers, _) = acts(o, s.read(view.operands), s.world);
                assert(self.blocks.contains_key(view.successors[numbers[0]]));
                self.args_match(
                    later,
                    way,
                    view.successors[numbers[0]],
                    numbers.skip(1),
                    s,
                    t,
                );
            },
            _ => {
                view.earlier_segment(1, 2);
                assert(self.blocks.contains_key(view.successors[1]));
                assert((t.values)(now.operands[0]) == (s.values)(view.operands[0]));
                let yes = s.read(view.segment(1));
                let no = s.read(view.segment(2));
                assert(t.read(now.segment(1)) == yes);
                assert(t.read(now.segment(2)) == no);
                self.args_match(later, way, view.successors[0], yes, s, t);
                self.args_match(later, way, view.successors[1], no, s, t);
            },
        }
    }

    /// In an operation that is not in the replaced one, neither is what it holds, but for the
    /// replaced one itself.
    pub(crate) proof fn inside_outside(self, later: Ir, way: Replacement, o: OpId, i: int)
        requires
            self.wf(),
            self.surrounded(later, way),
            self.outside(o, way.op),
            0 <= i < self.ops[o].regions.len(),
        ensures
            ({
                let r = self.ops[o].regions[i];
                &&& self.regions.contains_key(r)
                &&& self.regions[r].parent == o
                &&& forall|b: BlockId, k: int|
                    #![trigger self.blocks[b].ops[k]]
                    self.blocks.contains_key(b) && self.blocks[b].parent == r && 0 <= k
                        < self.blocks[b].ops.len() && self.blocks[b].ops[k] != way.op
                        ==> self.outside(self.blocks[b].ops[k], way.op)
                &&& forall|b: BlockId, k: int|
                    #![trigger self.blocks[b].ops[k]]
                    self.blocks.contains_key(b) && self.blocks[b].parent == r && 0 <= k
                        < self.blocks[b].ops.len() && self.blocks[b].ops[k] == way.op ==> b
                        == self.holder(way.op) && k == self.position(way.op)
            }),
    {
        let r = self.ops[o].regions[i];
        self.region_there(o, i);
        assert forall|b: BlockId, k: int|
            #![trigger self.blocks[b].ops[k]]
            self.blocks.contains_key(b) && self.blocks[b].parent == r && 0 <= k
                < self.blocks[b].ops.len() && self.blocks[b].ops[k] != way.op implies self.outside(
            self.blocks[b].ops[k],
            way.op,
        ) by {
            self.position_unique(b, k);
        }
        assert forall|b: BlockId, k: int|
            #![trigger self.blocks[b].ops[k]]
            self.blocks.contains_key(b) && self.blocks[b].parent == r && 0 <= k
                < self.blocks[b].ops.len() && self.blocks[b].ops[k] == way.op implies b
            == self.holder(way.op) && k == self.position(way.op) by {
            self.position_unique(b, k);
        }
    }

    /// Operations run one after the other if their first ones do and then the rest does.
    pub(crate) proof fn ran_all_joined(
        self,
        acts: spec_fn(OpId, Seq<int>, int) -> (Seq<int>, int),
        a: Seq<OpId>,
        b: Seq<OpId>,
        s: State,
        fuel: nat,
    )
        ensures
            self.ran_all(acts, a + b, s, fuel) == (match self.ran_all(acts, a, s, fuel) {
                None => None,
                Some(t) => self.ran_all(acts, b, t, fuel),
            }),
        decreases b.len(),
    {
        if b.len() == 0 {
            assert(a + b =~= a);
        } else {
            assert((a + b).drop_last() =~= a + b.drop_last());
            assert((a + b).last() == b.last());
            self.ran_all_joined(acts, a, b.drop_last(), s, fuel);
        }
    }
}

impl ForOp {
    /// A loop that is not in the replaced operation does what it did. Returns the numbers of
    /// steps and of rounds that are enough.
    pub(crate) proof fn rounds_match(
        self,
        ir: Ir,
        later: Ir,
        way: Replacement,
        acts: spec_fn(OpId, Seq<int>, int) -> (Seq<int>, int),
        upper: int,
        step: int,
        iv: int,
        iters: Seq<int>,
        s: State,
        t: State,
        fuel: nat,
        count: nat,
    ) -> (enough: (nat, nat))
        requires
            ir.replaced_by(later, way, acts),
            ir.outside(self.op, way.op),
            ir.has_body(self.op, 0),
            ir.matches_up(way, s, t),
            self.rounds(
                ir,
                ir.running(acts, self.op, 0, fuel),
                upper,
                step,
                iv,
                iters,
                s,
                count,
            ) is Some,
        ensures
            ({
                let done = self.rounds(
                    ir,
                    ir.running(acts, self.op, 0, fuel),
                    upper,
                    step,
                    iv,
                    iters,
                    s,
                    count,
                )->0;
                let now = self.rounds(
                    later,
                    later.running(acts, self.op, 0, enough.0),
                    upper,
                    step,
                    iv,
                    iters,
                    t,
                    enough.1,
                );
                now is Some && ir.matches_up(way, done, now->0)
            }),
        decreases fuel, 3nat, count,
    {
        if iv >= upper {
            ir.results_match(way, self.op, iters, s, t);
            (0, 0)
        } else {
            let entry = self.entry(ir);
            let numbers = seq![iv] + iters;
            let start = s.with_args(entry, numbers);
            let there = t.with_args(entry, numbers);
            ir.entry_exit_in_range(self.op, 0);
            ir.args_match(later, way, entry, numbers, s, t);
            let run = ir.running(acts, self.op, 0, fuel);
            assert(run(start) is Some);
            let f = ir.running_matches(later, way, acts, self.op, 0, start, there, fuel);
            let end = run(start)->0;
            let done = later.running(acts, self.op, 0, f)(there)->0;
            ir.yields_match(later, way, acts, self.op, 0, start, fuel);
            ir.operands_match(later, way, self.yield_op(ir), end, done);
            let next = State::sum(iv, step);
            let yields = end.read(ir.ops[self.yield_op(ir)].operands);
            let (g, c) = self.rounds_match(
                ir,
                later,
                way,
                acts,
                upper,
                step,
                next,
                yields,
                end,
                done,
                fuel,
                (count - 1) as nat,
            );
            let most = if f <= g { g } else { f };
            later.running_more(acts, self.op, 0, f, most);
            later.running_more(acts, self.op, 0, g, most);
            let longer = later.running(acts, self.op, 0, most);
            assert(later.running(acts, self.op, 0, f)(there) is Some);
            assert(longer(there) == Some(done));
            self.rounds_more(
                later,
                later.running(acts, self.op, 0, g),
                longer,
                upper,
                step,
                next,
                yields,
                done,
                c,
                c,
            );
            (most, c + 1)
        }
    }
}

impl NDForOp {
    /// Loops that are not in the replaced operation do what they did. Returns the numbers of
    /// steps and of rounds that are enough.
    pub(crate) proof fn nest_matches(
        self,
        ir: Ir,
        later: Ir,
        way: Replacement,
        acts: spec_fn(OpId, Seq<int>, int) -> (Seq<int>, int),
        lowers: Seq<int>,
        uppers: Seq<int>,
        steps: Seq<int>,
        ivs: Seq<int>,
        s: State,
        t: State,
        fuel: nat,
        count: nat,
    ) -> (enough: (nat, nat))
        requires
            ir.replaced_by(later, way, acts),
            ir.outside(self.op, way.op),
            ir.has_body(self.op, 0),
            self.dims(later) == self.dims(ir),
            ir.matches_up(way, s, t),
            self.nest(
                ir,
                ir.running(acts, self.op, 0, fuel),
                lowers,
                uppers,
                steps,
                ivs,
                s,
                count,
            ) is Some,
        ensures
            ({
                let done = self.nest(
                    ir,
                    ir.running(acts, self.op, 0, fuel),
                    lowers,
                    uppers,
                    steps,
                    ivs,
                    s,
                    count,
                )->0;
                let now = self.nest(
                    later,
                    later.running(acts, self.op, 0, enough.0),
                    lowers,
                    uppers,
                    steps,
                    ivs,
                    t,
                    enough.1,
                );
                now is Some && ir.matches_up(way, done, now->0)
            }),
        decreases fuel, 3nat, 2 * count + 1,
    {
        let run = ir.running(acts, self.op, 0, fuel);
        ir.entry_exit_in_range(self.op, 0);
        if ivs.len() >= self.dims(ir) {
            let entry = self.entry(ir);
            let start = s.with_args(entry, ivs);
            let there = t.with_args(entry, ivs);
            ir.args_match(later, way, entry, ivs, s, t);
            assert(run(start) is Some);
            let f = ir.running_matches(later, way, acts, self.op, 0, start, there, fuel);
            (f, 0)
        } else {
            self.along_matches(
                ir,
                later,
                way,
                acts,
                lowers,
                uppers,
                steps,
                ivs,
                lowers[ivs.len() as int],
                s,
                t,
                fuel,
                count,
            )
        }
    }

    pub(crate) proof fn along_matches(
        self,
        ir: Ir,
        later: Ir,
        way: Replacement,
        acts: spec_fn(OpId, Seq<int>, int) -> (Seq<int>, int),
        lowers: Seq<int>,
        uppers: Seq<int>,
        steps: Seq<int>,
        ivs: Seq<int>,
        iv: int,
        s: State,
        t: State,
        fuel: nat,
        count: nat,
    ) -> (enough: (nat, nat))
        requires
            ir.replaced_by(later, way, acts),
            ir.outside(self.op, way.op),
            ir.has_body(self.op, 0),
            self.dims(later) == self.dims(ir),
            ir.matches_up(way, s, t),
            self.along(
                ir,
                ir.running(acts, self.op, 0, fuel),
                lowers,
                uppers,
                steps,
                ivs,
                iv,
                s,
                count,
            ) is Some,
        ensures
            ({
                let done = self.along(
                    ir,
                    ir.running(acts, self.op, 0, fuel),
                    lowers,
                    uppers,
                    steps,
                    ivs,
                    iv,
                    s,
                    count,
                )->0;
                let now = self.along(
                    later,
                    later.running(acts, self.op, 0, enough.0),
                    lowers,
                    uppers,
                    steps,
                    ivs,
                    iv,
                    t,
                    enough.1,
                );
                now is Some && ir.matches_up(way, done, now->0)
            }),
        decreases fuel, 3nat, 2 * count,
    {
        let run = ir.running(acts, self.op, 0, fuel);
        let d = ivs.len() as int;
        if iv >= uppers[d] {
            (0, 0)
        } else {
            let less = (count - 1) as nat;
            let more = ivs.push(iv);
            let (f, a) = self.nest_matches(
                ir,
                later,
                way,
                acts,
                lowers,
                uppers,
                steps,
                more,
                s,
                t,
                fuel,
                less,
            );
            let end = self.nest(ir, run, lowers, uppers, steps, more, s, less)->0;
            let once = later.running(acts, self.op, 0, f);
            let done = self.nest(later, once, lowers, uppers, steps, more, t, a)->0;
            let next = State::sum(iv, steps[d]);
            let (g, c) = self.along_matches(
                ir,
                later,
                way,
                acts,
                lowers,
                uppers,
                steps,
                ivs,
                next,
                end,
                done,
                fuel,
                less,
            );
            let again = later.running(acts, self.op, 0, g);
            let most = if f <= g { g } else { f };
            let count = if a <= c { c } else { a };
            let longer = later.running(acts, self.op, 0, most);
            later.running_more(acts, self.op, 0, f, most);
            later.running_more(acts, self.op, 0, g, most);
            self.nest_more(later, once, longer, lowers, uppers, steps, more, t, a, count);
            self.along_more(later, again, longer, lowers, uppers, steps, ivs, next, done, c, count);
            (most, count + 1)
        }
    }
}

impl Ir {
    /// An operation that is not in the replaced one does what it did. Returns the number of
    /// steps that is enough.
    pub(crate) proof fn ran_matches(
        self,
        later: Ir,
        way: Replacement,
        acts: spec_fn(OpId, Seq<int>, int) -> (Seq<int>, int),
        o: OpId,
        s: State,
        t: State,
        fuel: nat,
    ) -> (f: nat)
        requires
            self.replaced_by(later, way, acts),
            self.outside(o, way.op),
            self.matches_up(way, s, t),
            self.ran(acts, o, s, fuel) is Some,
        ensures
            later.ran(acts, o, t, f) is Some,
            self.matches_up(way, self.ran(acts, o, s, fuel)->0, later.ran(acts, o, t, f)->0),
        decreases fuel, 5nat, 0nat,
    {
        let view = self.ops[o];
        let now = later.ops[o];
        assert(self.same_but_renamed(later, way, o));
        self.operands_match(later, way, o, s, t);
        match view.kind {
            OpKind::CfFor => {
                let this = ForOp { op: o };
                view.earlier_segment(0, 1);
                view.segment_in_range(0);
                assert(s.read(view.segment(1)) == t.read(now.segment(1)));
                assert((s.values)(view.segment(0)[0]) == (t.values)(now.segment(0)[0]));
                assert((s.values)(view.segment(0)[1]) == (t.values)(now.segment(0)[1]));
                assert((s.values)(view.segment(0)[2]) == (t.values)(now.segment(0)[2]));
                let upper = (s.values)(this.upper_bound(self));
                let step = (s.values)(this.step(self));
                let iv = (s.values)(this.lower_bound(self));
                let iters = s.read(this.iter_args_init(self));
                let (f, c) = this.rounds_match(
                    self,
                    later,
                    way,
                    acts,
                    upper,
                    step,
                    iv,
                    iters,
                    s,
                    t,
                    fuel,
                    fuel,
                );
                self.bodies_match(later, way, o, 0);
                let most = if f <= c { c } else { f };
                let once = later.running(acts, o, 0, f);
                let longer = later.running(acts, o, 0, most);
                later.running_more(acts, o, 0, f, most);
                this.rounds_more(later, once, longer, upper, step, iv, iters, t, c, most);
                most
            },
            OpKind::CfNDFor => {
                let this = NDForOp { op: o };
                view.earlier_segment(0, 2);
                view.earlier_segment(1, 2);
                let lowers = s.read(view.segment(0));
                let uppers = s.read(view.segment(1));
                let steps = s.read(view.segment(2));
                assert(t.read(now.segment(0)) == lowers);
                assert(t.read(now.segment(1)) == uppers);
                assert(t.read(now.segment(2)) == steps);
                let none: Seq<int> = Seq::empty();
                let (f, c) = this.nest_matches(
                    self,
                    later,
                    way,
                    acts,
                    lowers,
                    uppers,
                    steps,
                    none,
                    s,
                    t,
                    fuel,
                    fuel,
                );
                self.bodies_match(later, way, o, 0);
                let most = if f <= c { c } else { f };
                let once = later.running(acts, o, 0, f);
                let longer = later.running(acts, o, 0, most);
                later.running_more(acts, o, 0, f, most);
                this.nest_more(later, once, longer, lowers, uppers, steps, none, t, c, most);
                most
            },
            OpKind::CfExecuteRegion => {
                self.branch_matches(later, way, acts, o, 0, s, t, fuel)
            },
            OpKind::CfIf => {
                let this = IfOp { op: o };
                assert((s.values)(view.operands[0]) == (t.values)(now.operands[0]));
                if (s.values)(this.condition(self)) != 0 {
                    self.branch_matches(later, way, acts, o, 0, s, t, fuel)
                } else if this.has_else(self) {
                    self.branch_matches(later, way, acts, o, 1, s, t, fuel)
                } else {
                    0
                }
            },
            _ => {
                let (numbers, _) = view.outcome(o, acts, s.read(view.operands), s.world);
                self.results_match(way, o, numbers, s, t);
                0
            },
        }
    }

    /// A region that is not empty is not empty now, and begins with the same block.
    pub(crate) proof fn bodies_match(self, later: Ir, way: Replacement, o: OpId, i: int)
        requires
            self.wf(),
            self.surrounded(later, way),
            self.outside(o, way.op),
            self.has_body(o, i),
        ensures
            later.has_body(o, i),
            later.entry(o, i) == self.entry(o, i),
            later.exit(o, i) == self.moved_end(way, self.exit(o, i)),
            self.blocks.contains_key(self.entry(o, i)),
            self.blocks[self.entry(o, i)].parent == self.ops[o].regions[i],
    {
        assert(self.same_but_renamed(later, way, o));
        self.region_there(o, i);
        self.entry_exit_in_range(o, i);
    }

    /// The end of a block in which the run of a region can end is now at the end of the block
    /// to which it was moved.
    pub(crate) proof fn ends_match(self, later: Ir, way: Replacement, o: OpId, i: int, b: BlockId)
        requires
            self.wf(),
            self.surrounded(later, way),
            self.outside(o, way.op),
            0 <= i < self.ops[o].regions.len(),
            self.blocks.contains_key(b),
            self.blocks[b].parent == self.ops[o].regions[i],
            self.blocks[b].ops.len() > 0,
            self.ops[self.blocks[b].ops.last()].kind.closes(),
        ensures
            ({
                let y = self.blocks[b].ops.last();
                let now = later.blocks[self.moved_end(way, b)].ops;
                &&& now.len() > 0
                &&& now.last() == y
                &&& self.outside(y, way.op)
                &&& self.same_but_renamed(later, way, y)
            }),
    {
        let ops = self.blocks[b].ops;
        self.inside_outside(later, way, o, i);
        assert(self.outside(self.blocks[b].ops[ops.len() - 1], way.op));
        self.position_in_range(way.op);
    }

    /// What a region yields is what it yielded, but for what stands for it.
    pub(crate) proof fn yields_match(
        self,
        later: Ir,
        way: Replacement,
        acts: spec_fn(OpId, Seq<int>, int) -> (Seq<int>, int),
        o: OpId,
        i: int,
        s: State,
        fuel: nat,
    )
        requires
            self.replaced_by(later, way, acts),
            self.outside(o, way.op),
            self.running(acts, o, i, fuel)(s) is Some,
        ensures
            ({
                let y = self.exit_op(o, i);
                &&& later.has_body(o, i)
                &&& later.entry(o, i) == self.entry(o, i)
                &&& later.exit(o, i) == self.moved_end(way, self.exit(o, i))
                &&& later.exit_op(o, i) == y
                &&& self.ops.contains_key(y)
                &&& self.same_but_renamed(later, way, y)
            }),
    {
        let region = self.ops[o].regions[i];
        self.bodies_match(later, way, o, i);
        self.ran_region_ends(acts, region, self.entry(o, i), s, fuel);
        self.ends_match(later, way, o, i, self.exit(o, i));
    }

    /// Running one region of an operation once, and taking what it yields for the results.
    pub(crate) proof fn branch_matches(
        self,
        later: Ir,
        way: Replacement,
        acts: spec_fn(OpId, Seq<int>, int) -> (Seq<int>, int),
        o: OpId,
        i: int,
        s: State,
        t: State,
        fuel: nat,
    ) -> (f: nat)
        requires
            self.replaced_by(later, way, acts),
            self.outside(o, way.op),
            self.matches_up(way, s, t),
            (IfOp { op: o }).branch_meaning(self, self.running(acts, o, i, fuel), i, s) is Some,
        ensures
            ({
                let this = IfOp { op: o };
                let before = this.branch_meaning(self, self.running(acts, o, i, fuel), i, s);
                let after = this.branch_meaning(later, later.running(acts, o, i, f), i, t);
                after is Some && self.matches_up(way, before->0, after->0)
            }),
        decreases fuel, 3nat, 0nat,
    {
        let none: Seq<int> = Seq::empty();
        let start = s.with_args(self.entry(o, i), none);
        let there = t.with_args(self.entry(o, i), none);
        assert(self.running(acts, o, i, fuel)(start) is Some);
        self.bodies_match(later, way, o, i);
        self.args_match(later, way, self.entry(o, i), none, s, t);
        let f = self.running_matches(later, way, acts, o, i, start, there, fuel);
        self.yields_match(later, way, acts, o, i, start, fuel);
        let end = self.running(acts, o, i, fuel)(start)->0;
        let done = later.running(acts, o, i, f)(there)->0;
        let y = self.exit_op(o, i);
        self.operands_match(later, way, y, end, done);
        self.results_match(way, o, end.read(self.ops[y].operands), end, done);
        f
    }

    pub(crate) proof fn running_matches(
        self,
        later: Ir,
        way: Replacement,
        acts: spec_fn(OpId, Seq<int>, int) -> (Seq<int>, int),
        o: OpId,
        i: int,
        s: State,
        t: State,
        fuel: nat,
    ) -> (f: nat)
        requires
            self.replaced_by(later, way, acts),
            self.outside(o, way.op),
            self.matches_up(way, s, t),
            self.running(acts, o, i, fuel)(s) is Some,
        ensures
            later.running(acts, o, i, f)(t) is Some,
            self.matches_up(
                way,
                self.running(acts, o, i, fuel)(s)->0,
                later.running(acts, o, i, f)(t)->0,
            ),
        decreases fuel, 2nat, 0nat,
    {
        self.bodies_match(later, way, o, i);
        let f = self.ran_region_matches(
            later,
            way,
            acts,
            o,
            i,
            self.entry(o, i),
            s,
            t,
            fuel,
        );
        self.yields_match(later, way, acts, o, i, s, fuel);
        f
    }

    /// Operations that are not in the replaced one do what they did. Returns the number of steps
    /// that is enough.
    pub(crate) proof fn ran_all_matches(
        self,
        later: Ir,
        way: Replacement,
        acts: spec_fn(OpId, Seq<int>, int) -> (Seq<int>, int),
        ops: Seq<OpId>,
        s: State,
        t: State,
        fuel: nat,
    ) -> (f: nat)
        requires
            self.replaced_by(later, way, acts),
            forall|i: int| 0 <= i < ops.len() ==> self.outside(#[trigger] ops[i], way.op),
            self.matches_up(way, s, t),
            self.ran_all(acts, ops, s, fuel) is Some,
        ensures
            later.ran_all(acts, ops, t, f) is Some,
            self.matches_up(
                way,
                self.ran_all(acts, ops, s, fuel)->0,
                later.ran_all(acts, ops, t, f)->0,
            ),
        decreases fuel, 6nat, ops.len(),
    {
        if ops.len() == 0 {
            0
        } else {
            let rest = ops.drop_last();
            assert forall|i: int| 0 <= i < rest.len() implies self.outside(
                #[trigger] rest[i],
                way.op,
            ) by {
                assert(rest[i] == ops[i]);
            }
            let f = self.ran_all_matches(later, way, acts, rest, s, t, fuel);
            let u = self.ran_all(acts, rest, s, fuel)->0;
            let w = later.ran_all(acts, rest, t, f)->0;
            assert(ops.last() == ops[ops.len() - 1]);
            let g = self.ran_matches(later, way, acts, ops.last(), u, w, fuel);
            let most = if f <= g { g } else { f };
            later.ran_all_more(acts, rest, t, f, most);
            later.ran_more(acts, ops.last(), w, g, most);
            most
        }
    }

    /// A region of an operation that is not in the replaced one does what it did: its run ends
    /// at the same operation. Returns the number of steps that is enough.
    pub(crate) proof fn ran_region_matches(
        self,
        later: Ir,
        way: Replacement,
        acts: spec_fn(OpId, Seq<int>, int) -> (Seq<int>, int),
        o: OpId,
        i: int,
        block: BlockId,
        s: State,
        t: State,
        fuel: nat,
    ) -> (f: nat)
        requires
            self.replaced_by(later, way, acts),
            self.outside(o, way.op),
            0 <= i < self.ops[o].regions.len(),
            self.blocks.contains_key(block),
            self.blocks[block].parent == self.ops[o].regions[i],
            self.matches_up(way, s, t),
            self.ran_region(acts, self.ops[o].regions[i], block, s, fuel) is Some,
        ensures
            ({
                let r = self.ops[o].regions[i];
                let end = self.ran_region(acts, r, block, s, fuel)->0;
                let now = later.ran_region(acts, r, block, t, f);
                &&& now is Some
                &&& now->0.block == self.moved_end(way, end.block)
                &&& self.matches_up(way, end.state, now->0.state)
            }),
        decreases fuel, 1nat, 0nat,
    {
        let r = self.ops[o].regions[i];
        let ops = self.blocks[block].ops;
        let rest = ops.drop_last();
        let last = self.blocks[block].ops[ops.len() - 1];
        let less = (fuel - 1) as nat;
        let x = self.ran_all(acts, rest, s, less)->0;
        self.inside_outside(later, way, o, i);
        self.position_in_range(way.op);
        let holder = self.holder(way.op);
        let p = self.position(way.op);
        let dest = self.moved_end(way, block);
        // The end of the block, as far as control gets there: the number of steps in which what
        // precedes the last operation runs there, from the state in which control gets there.
        let (f, mid) = if block == holder && last != way.op {
            self.through_holder(later, way, acts, o, i, s, t, less)
        } else {
            assert forall|k: int| 0 <= k < rest.len() implies self.outside(
                #[trigger] rest[k],
                way.op,
            ) by {
                assert(rest[k] == self.blocks[block].ops[k]);
            }
            let f = self.ran_all_matches(later, way, acts, rest, s, t, less);
            later.stays(acts, r, block, t);
            (f, t)
        };
        let now = later.blocks[dest].ops;
        if block == holder && last == way.op {
            assert(now.drop_last() =~= rest);
            assert(now.last() == way.new);
        } else if block != holder {
            assert(now == ops);
        }
        let y = later.ran_all(acts, now.drop_last(), mid, f)->0;
        if self.ops[last].kind.closes() {
                self.ends_match(later, way, o, i, block);
            later.ran_region_from(acts, r, block, t, dest, mid, f + 1)
        } else {
            let to = self.led(acts, last, x)->0;
            if last != way.op {
                self.led_matches(later, way, acts, last, x, y);
            }
            let there = later.led(acts, now.last(), y)->0;
            let g = self.ran_region_matches(
                later,
                way,
                acts,
                o,
                i,
                to.block,
                to.state,
                there.state,
                less,
            );
            let most = if f <= g { g } else { f };
            later.ran_all_more(acts, now.drop_last(), mid, f, most);
            later.ran_region_more(acts, r, to.block, there.state, g, most);
            later.ran_region_from(acts, r, block, t, dest, mid, most + 1)
        }
    }

    /// From the start of the block that held the operation, control gets to its end, where that
    /// is now. Returns the number of steps in which what precedes the last operation there runs,
    /// and the state in which control gets to the start of that block.
    pub(crate) proof fn through_holder(
        self,
        later: Ir,
        way: Replacement,
        acts: spec_fn(OpId, Seq<int>, int) -> (Seq<int>, int),
        o: OpId,
        i: int,
        s: State,
        t: State,
        fuel: nat,
    ) -> (there: (nat, State))
        requires
            self.replaced_by(later, way, acts),
            self.outside(o, way.op),
            0 <= i < self.ops[o].regions.len(),
            self.blocks[self.holder(way.op)].parent == self.ops[o].regions[i],
            self.blocks[self.holder(way.op)].ops.last() != way.op,
            self.matches_up(way, s, t),
            self.ran_all(
                acts,
                self.blocks[self.holder(way.op)].ops.drop_last(),
                s,
                fuel,
            ) is Some,
        ensures
            ({
                let r = self.ops[o].regions[i];
                let holder = self.holder(way.op);
                let ops = self.blocks[holder].ops;
                let x = self.ran_all(acts, ops.drop_last(), s, fuel)->0;
                let now = later.blocks[way.cont].ops;
                let y = later.ran_all(acts, now.drop_last(), there.1, there.0);
                &&& later.reaches(acts, r, holder, t, way.cont, there.1)
                &&& now.len() > 0
                &&& now.last() == ops.last()
                &&& y is Some
                &&& self.matches_up(way, x, y->0)
            }),
        decreases fuel, 7nat, 0nat,
    {
        let r = self.ops[o].regions[i];
        let holder = self.holder(way.op);
        let ops = self.blocks[holder].ops;
        let p = self.position(way.op);
        self.position_in_range(way.op);
        self.inside_outside(later, way, o, i);
        let up_to = ops.take(p + 1);
        let first = ops.take(p);
        let behind = ops.subrange(p + 1, ops.len() - 1);
        assert(ops.drop_last() =~= up_to + behind);
        self.ran_all_joined(acts, up_to, behind, s, fuel);
        assert(self.ran_through(acts, way.op, s, fuel) is Some);
        let done = self.ran_through(acts, way.op, s, fuel)->0;
        assert(self.crossed(later, way, acts, done, t));
        assert forall|k: int| 0 <= k < behind.len() implies self.outside(
            #[trigger] behind[k],
            way.op,
        ) by {
            assert(behind[k] == self.blocks[holder].ops[p + 1 + k]);
        }
        let now = later.blocks[way.cont].ops;
        if way.cont == holder {
            let a = choose|f: nat|
                {
                    let u = #[trigger] later.ran_all(acts, first.push(way.new), t, f);
                    u is Some && self.matches_up(way, done, u->0)
                };
            let u = later.ran_all(acts, first.push(way.new), t, a)->0;
            let f = self.ran_all_matches(later, way, acts, behind, done, u, fuel);
            let most = if f <= a { a } else { f };
            later.ran_all_more(acts, first.push(way.new), t, a, most);
            later.ran_all_more(acts, behind, u, f, most);
            later.ran_all_joined(acts, first.push(way.new), behind, t, most);
            assert(now.drop_last() =~= first.push(way.new) + behind);
            later.stays(acts, r, holder, t);
            (most, t)
        } else {
            let u = choose|u: State|
                #[trigger] later.reaches(
                    acts,
                    self.blocks[holder].parent,
                    holder,
                    t,
                    way.cont,
                    u,
                ) && self.matches_up(way, done, u);
            let f = self.ran_all_matches(later, way, acts, behind, done, u, fuel);
            assert(now.drop_last() =~= behind);
            (f, u)
        }
    }

    /// Does a run end now where it ended before: in a state that agrees, at the same operation,
    /// which is handed the same numbers?
    pub open spec fn same_end(
        self,
        later: Ir,
        way: Replacement,
        end: Arrival,
        now: Option<Arrival>,
    ) -> bool {
        let last = self.blocks[end.block].ops.last();
        &&& now is Some
        &&& self.matches_up(way, end.state, now->0.state)
        &&& later.blocks[now->0.block].ops.last() == last
        &&& later.ops[last].kind == self.ops[last].kind
        &&& now->0.state.read(later.ops[last].operands) == end.state.read(self.ops[last].operands)
    }

    /// A run of a region of an operation that is not in the replaced one ends at the same
    /// operation, which is handed the same numbers.
    pub proof fn run_matches(
        self,
        later: Ir,
        way: Replacement,
        acts: spec_fn(OpId, Seq<int>, int) -> (Seq<int>, int),
        o: OpId,
        i: int,
        s: State,
        t: State,
        fuel: nat,
    )
        requires
            self.replaced_by(later, way, acts),
            self.outside(o, way.op),
            self.has_body(o, i),
            self.matches_up(way, s, t),
            self.ran_region(acts, self.ops[o].regions[i], self.entry(o, i), s, fuel) is Some,
        ensures
            exists|f: nat|
                self.same_end(
                    later,
                    way,
                    self.ran_region(acts, self.ops[o].regions[i], self.entry(o, i), s, fuel)->0,
                    #[trigger] later.ran_region(
                        acts,
                        self.ops[o].regions[i],
                        later.entry(o, i),
                        t,
                        f,
                    ),
                ),
    {
        let r = self.ops[o].regions[i];
        let entry = self.entry(o, i);
        self.bodies_match(later, way, o, i);
        let f = self.ran_region_matches(later, way, acts, o, i, entry, s, t, fuel);
        let end = self.ran_region(acts, r, entry, s, fuel)->0;
        let now = later.ran_region(acts, r, later.entry(o, i), t, f)->0;
        self.ran_region_ends(acts, r, entry, s, fuel);
        self.ends_match(later, way, o, i, end.block);
        let last = self.blocks[end.block].ops.last();
        self.operands_match(later, way, last, end.state, now.state);
        assert(self.same_end(
            later,
            way,
            end,
            later.ran_region(acts, self.ops[o].regions[i], later.entry(o, i), t, f),
        ));
    }
}

} // verus!
