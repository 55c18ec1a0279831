//! What surrounds an operation comes to an end after its lowering only if it did so before.

use crate::cf::ops::{ForOp, IfOp, NDForOp};
use crate::cf::semantics::State;
use crate::cf::to_llvm::meaning::whole::Replacement;
use crate::ir::model::Ir;
use crate::ir::types::{BlockId, OpId, OpKind, RegionId};
use vstd::prelude::*;

verus! {

impl Ir {
    /// Is there nothing around the operation now that was not there before? And do branches stay
    /// in their regions?
    pub open spec fn enclosed(self, later: Ir, way: Replacement) -> bool {
        &&& self.branches_stay()
        &&& way.cont == self.holder(way.op) || !self.blocks.contains_key(way.cont)
        &&& forall|r: RegionId| #[trigger]
            self.regions.contains_key(r) && self.regions[r].parent != way.op
                && self.regions[r].blocks.len() == 0 ==> later.regions[r].blocks.len() == 0
    }

    /// Does what is now in the place of the operation, from a state at the start of the block that
    /// held the operation, come to an end within the given number of steps?
    pub open spec fn passes(
        self,
        later: Ir,
        way: Replacement,
        acts: spec_fn(OpId, Seq<int>, int) -> (Seq<int>, int),
        t: State,
        fuel: nat,
    ) -> bool {
        let holder = self.holder(way.op);
        if way.cont == holder {
            let first = self.blocks[holder].ops.take(self.position(way.op));
            later.ran_all(acts, first.push(way.new), t, fuel) is Some
        } else {
            later.ran_region(acts, self.blocks[holder].parent, holder, t, fuel) is Some
        }
    }

    /// Does what is now in the place of the operation come to an end only if the operation did?
    pub open spec fn crosses_back(
        self,
        later: Ir,
        way: Replacement,
        acts: spec_fn(OpId, Seq<int>, int) -> (Seq<int>, int),
    ) -> bool {
        if self.blocks[self.holder(way.op)].ops.last() == way.op {
            forall|s: State, t: State| #[trigger]
                self.matches_up(way, s, t) && later.led(acts, way.new, t) is Some ==> self.led(
                    acts,
                    way.op,
                    s,
                ) is Some
        } else {
            forall|s: State, t: State, fuel: nat|
                #![trigger self.matches_up(way, s, t), self.passes(later, way, acts, t, fuel)]
                self.matches_up(way, s, t) && self.passes(later, way, acts, t, fuel) ==> exists|
                    f: nat,
                |
                    #[trigger] self.ran_through(acts, way.op, s, f) is Some
        }
    }

    /// The operation was replaced by something that does the same and no more, and all that
    /// surrounds it, and nothing else, is still there.
    pub open spec fn matched_by(
        self,
        later: Ir,
        way: Replacement,
        acts: spec_fn(OpId, Seq<int>, int) -> (Seq<int>, int),
    ) -> bool {
        &&& self.replaced_by(later, way, acts)
        &&& self.enclosed(later, way)
        &&& self.crosses_back(later, way, acts)
    }

    /// A region that is not empty now was not empty before.
    proof fn bodies_back(self, later: Ir, way: Replacement, o: OpId, i: int)
        requires
            self.wf(),
            self.surrounded(later, way),
            self.enclosed(later, way),
            self.outside(o, way.op),
            later.has_body(o, i),
        ensures
            self.has_body(o, i),
            later.entry(o, i) == self.entry(o, i),
            later.exit(o, i) == self.moved_end(way, self.exit(o, i)),
            self.blocks.contains_key(self.entry(o, i)),
            self.blocks[self.entry(o, i)].parent == self.ops[o].regions[i],
    {
        assert(self.same_but_renamed(later, way, o));
        self.region_there(o, i);
        self.bodies_match(later, way, o, i);
    }

    /// The same branch led somewhere if it does now.
    proof fn led_back(
        self,
        later: Ir,
        way: Replacement,
        acts: spec_fn(OpId, Seq<int>, int) -> (Seq<int>, int),
        o: OpId,
        s: State,
        t: State,
    )
        requires
            self.wf(),
            self.surrounded(later, way),
            self.outside(o, way.op),
            self.matches_up(way, s, t),
            later.led(acts, o, t) is Some,
        ensures
            self.led(acts, o, s) is Some,
    {
        assert(self.same_but_renamed(later, way, o));
        self.operands_match(later, way, o, s, t);
    }
}

impl ForOp {
    /// A loop that is not in the replaced operation came to an end if it does now. Returns the
    /// numbers of steps and of rounds that were enough.
    proof fn rounds_back(
        self,
        ir: Ir,
        later: Ir,
        way: Replacement,
        acts: spec_fn(OpId, Seq<int>, int) -> (Seq<int>, int),
        upper: int,
        step: int,
        iv: int,
        iters: Seq<int>,
        s: State,
        t: State,
        fuel: nat,
        count: nat,
    ) -> (enough: (nat, nat))
        requires
            ir.matched_by(later, way, acts),
            ir.outside(self.op, way.op),
            ir.has_body(self.op, 0),
            ir.matches_up(way, s, t),
            self.rounds(
                later,
                later.running(acts, self.op, 0, fuel),
                upper,
                step,
                iv,
                iters,
                t,
                count,
            ) is Some,
        ensures
            self.rounds(
                ir,
                ir.running(acts, self.op, 0, enough.0),
                upper,
                step,
                iv,
                iters,
                s,
                enough.1,
            ) is Some,
        decreases fuel, 3nat, count,
    {
        if iv >= upper {
            (0, 0)
        } else {
            let entry = self.entry(ir);
            let numbers = seq![iv] + iters;
            let start = s.with_args(entry, numbers);
            let there = t.with_args(entry, numbers);
            ir.entry_exit_in_range(self.op, 0);
            ir.bodies_match(later, way, self.op, 0);
            ir.args_match(later, way, entry, numbers, s, t);
            assert(later.running(acts, self.op, 0, fuel)(there) is Some);
            let f = ir.running_back(later, way, acts, self.op, 0, start, there, fuel);
            let h = ir.running_matches(later, way, acts, self.op, 0, start, there, f);
            later.running_once(acts, self.op, 0, there, fuel, h);
            let once = ir.running(acts, self.op, 0, f);
            let end = once(start)->0;
            let done = later.running(acts, self.op, 0, fuel)(there)->0;
            ir.yields_match(later, way, acts, self.op, 0, start, f);
            ir.operands_match(later, way, self.yield_op(ir), end, done);
            let next = State::sum(iv, step);
            let yields = end.read(ir.ops[self.yield_op(ir)].operands);
            let (g, c) = self.rounds_back(
                ir,
                later,
                way,
                acts,
                upper,
                step,
                next,
                yields,
                end,
                done,
                fuel,
                (count - 1) as nat,
            );
            let most = if f <= g { g } else { f };
            ir.running_more(acts, self.op, 0, f, most);
            ir.running_more(acts, self.op, 0, g, most);
            let longer = ir.running(acts, self.op, 0, most);
            assert(once(start) is Some);
            assert(longer(start) == Some(end));
            self.rounds_more(
                ir,
                ir.running(acts, self.op, 0, g),
                longer,
                upper,
                step,
                next,
                yields,
                end,
                c,
                c,
            );
            (most, c + 1)
        }
    }
}

impl NDForOp {
    /// Loops that are not in the replaced operation came to an end if they do now. Returns the
    /// numbers of steps and of rounds that were enough.
    proof fn nest_back(
        self,
        ir: Ir,
        later: Ir,
        way: Replacement,
        acts: spec_fn(OpId, Seq<int>, int) -> (Seq<int>, int),
        lowers: Seq<int>,
        uppers: Seq<int>,
        steps: Seq<int>,
        ivs: Seq<int>,
        s: State,
        t: State,
        fuel: nat,
        count: nat,
    ) -> (enough: (nat, nat))
        requires
            ir.matched_by(later, way, acts),
            ir.outside(self.op, way.op),
            ir.has_body(self.op, 0),
            self.dims(later) == self.dims(ir),
            ir.matches_up(way, s, t),
            self.nest(
                later,
                later.running(acts, self.op, 0, fuel),
                lowers,
                uppers,
                steps,
                ivs,
                t,
                count,
            ) is Some,
        ensures
            ({
                let before = self.nest(
                    ir,
                    ir.running(acts, self.op, 0, enough.0),
                    lowers,
                    uppers,
                    steps,
                    ivs,
                    s,
                    enough.1,
                );
                let now = self.nest(
                    later,
                    later.running(acts, self.op, 0, fuel),
                    lowers,
                    uppers,
                    steps,
                    ivs,
                    t,
                    count,
                );
                before is Some && ir.matches_up(way, before->0, now->0)
            }),
        decreases fuel, 3nat, 2 * count + 1,
    {
        ir.entry_exit_in_range(self.op, 0);
        ir.bodies_match(later, way, self.op, 0);
        if ivs.len() >= self.dims(ir) {
            let entry = self.entry(ir);
            let start = s.with_args(entry, ivs);
            let there = t.with_args(entry, ivs);
            ir.args_match(later, way, entry, ivs, s, t);
            assert(later.running(acts, self.op, 0, fuel)(there) is Some);
            let f = ir.running_back(later, way, acts, self.op, 0, start, there, fuel);
            let h = ir.running_matches(later, way, acts, self.op, 0, start, there, f);
            later.running_once(acts, self.op, 0, there, fuel, h);
            assert(ir.running(acts, self.op, 0, f)(start) is Some);
            (f, 0)
        } else {
            self.along_back(
                ir,
                later,
                way,
                acts,
                lowers,
                uppers,
                steps,
                ivs,
                lowers[ivs.len() as int],
                s,
                t,
                fuel,
                count,
            )
        }
    }

    proof fn along_back(
        self,
        ir: Ir,
        later: Ir,
        way: Replacement,
        acts: spec_fn(OpId, Seq<int>, int) -> (Seq<int>, int),
        lowers: Seq<int>,
        uppers: Seq<int>,
        steps: Seq<int>,
        ivs: Seq<int>,
        iv: int,
        s: State,
        t: State,
        fuel: nat,
        count: nat,
    ) -> (enough: (nat, nat))
        requires
            ir.matched_by(later, way, acts),
            ir.outside(self.op, way.op),
            ir.has_body(self.op, 0),
            self.dims(later) == self.dims(ir),
            ir.matches_up(way, s, t),
            self.along(
                later,
                later.running(acts, self.op, 0, fuel),
                lowers,
                uppers,
                steps,
                ivs,
                iv,
                t,
                count,
            ) is Some,
        ensures
            ({
                let before = self.along(
                    ir,
                    ir.running(acts, self.op, 0, enough.0),
                    lowers,
                    uppers,
                    steps,
                    ivs,
                    iv,
                    s,
                    enough.1,
                );
                let now = self.along(
                    later,
                    later.running(acts, self.op, 0, fuel),
                    lowers,
                    uppers,
                    steps,
                    ivs,
                    iv,
                    t,
                    count,
                );
                before is Some && ir.matches_up(way, before->0, now->0)
            }),
        decreases fuel, 3nat, 2 * count,
    {
        let d = ivs.len() as int;
        if iv >= uppers[d] {
            (0, 0)
        } else {
            let less = (count - 1) as nat;
            let more = ivs.push(iv);
            let now = later.running(acts, self.op, 0, fuel);
            let (f, a) = self.nest_back(
                ir,
                later,
                way,
                acts,
                lowers,
                uppers,
                steps,
                more,
                s,
                t,
                fuel,
                less,
            );
            let once = ir.running(acts, self.op, 0, f);
            let end = self.nest(ir, once, lowers, uppers, steps, more, s, a)->0;
            let done = self.nest(later, now, lowers, uppers, steps, more, t, less)->0;
            let next = State::sum(iv, steps[d]);
            let (g, c) = self.along_back(
                ir,
                later,
                way,
                acts,
                lowers,
                uppers,
                steps,
                ivs,
                next,
                end,
                done,
                fuel,
                less,
            );
            let again = ir.running(acts, self.op, 0, g);
            let most = if f <= g { g } else { f };
            let rounds = if a <= c { c } else { a };
            let longer = ir.running(acts, self.op, 0, most);
            ir.running_more(acts, self.op, 0, f, most);
            ir.running_more(acts, self.op, 0, g, most);
            self.nest_more(ir, once, longer, lowers, uppers, steps, more, s, a, rounds);
            self.along_more(ir, again, longer, lowers, uppers, steps, ivs, next, end, c, rounds);
            (most, rounds + 1)
        }
    }
}

impl Ir {
    /// An operation that is not in the replaced one came to an end if it does now. Returns the
    /// number of steps that was enough.
    proof fn ran_back(
        self,
        later: Ir,
        way: Replacement,
        acts: spec_fn(OpId, Seq<int>, int) -> (Seq<int>, int),
        o: OpId,
        s: State,
        t: State,
        fuel: nat,
    ) -> (f: nat)
        requires
            self.matched_by(later, way, acts),
            self.outside(o, way.op),
            self.matches_up(way, s, t),
            later.ran(acts, o, t, fuel) is Some,
        ensures
            self.ran(acts, o, s, f) is Some,
        decreases fuel, 5nat, 0nat,
    {
        let view = self.ops[o];
        let now = later.ops[o];
        assert(self.same_but_renamed(later, way, o));
        self.operands_match(later, way, o, s, t);
        match view.kind {
            OpKind::CfFor => {
                let this = ForOp { op: o };
                self.bodies_back(later, way, o, 0);
                view.earlier_segment(0, 1);
                view.segment_in_range(0);
                assert(s.read(view.segment(1)) == t.read(now.segment(1)));
                assert((s.values)(view.segment(0)[0]) == (t.values)(now.segment(0)[0]));
                assert((s.values)(view.segment(0)[1]) == (t.values)(now.segment(0)[1]));
                assert((s.values)(view.segment(0)[2]) == (t.values)(now.segment(0)[2]));
                let upper = (s.values)(this.upper_bound(self));
                let step = (s.values)(this.step(self));
                let iv = (s.values)(this.lower_bound(self));
                let iters = s.read(this.iter_args_init(self));
                let (f, c) = this.rounds_back(
                    self,
                    later,
                    way,
                    acts,
                    upper,
                    step,
                    iv,
                    iters,
                    s,
                    t,
                    fuel,
                    fuel,
                );
                let most = if f <= c { c } else { f };
                let once = self.running(acts, o, 0, f);
                let longer = self.running(acts, o, 0, most);
                self.running_more(acts, o, 0, f, most);
                this.rounds_more(self, once, longer, upper, step, iv, iters, s, c, most);
                most
            },
            OpKind::CfNDFor => {
                let this = NDForOp { op: o };
                self.bodies_back(later, way, o, 0);
                view.earlier_segment(0, 2);
                view.earlier_segment(1, 2);
                let lowers = s.read(view.segment(0));
                let uppers = s.read(view.segment(1));
                let steps = s.read(view.segment(2));
                assert(t.read(now.segment(0)) == lowers);
                assert(t.read(now.segment(1)) == uppers);
                assert(t.read(now.segment(2)) == steps);
                let none: Seq<int> = Seq::empty();
                let (f, c) = this.nest_back(
                    self,
                    later,
                    way,
                    acts,
                    lowers,
                    uppers,
                    steps,
                    none,
                    s,
                    t,
                    fuel,
                    fuel,
                );
                let most = if f <= c { c } else { f };
                let once = self.running(acts, o, 0, f);
                let longer = self.running(acts, o, 0, most);
                self.running_more(acts, o, 0, f, most);
                this.nest_more(self, once, longer, lowers, uppers, steps, none, s, c, most);
                most
            },
            OpKind::CfExecuteRegion => {
                self.branch_back(later, way, acts, o, 0, s, t, fuel)
            },
            OpKind::CfIf => {
                let this = IfOp { op: o };
                assert((s.values)(view.operands[0]) == (t.values)(now.operands[0]));
                if (s.values)(this.condition(self)) != 0 {
                    self.branch_back(later, way, acts, o, 0, s, t, fuel)
                } else if this.has_else(self) {
                    self.branch_back(later, way, acts, o, 1, s, t, fuel)
                } else {
                    0
                }
            },
            _ => 0,
        }
    }

    /// Running one region of an operation once came to an end if it does now.
    proof fn branch_back(
        self,
        later: Ir,
        way: Replacement,
        acts: spec_fn(OpId, Seq<int>, int) -> (Seq<int>, int),
        o: OpId,
        i: int,
        s: State,
        t: State,
        fuel: nat,
    ) -> (f: nat)
        requires
            self.matched_by(later, way, acts),
            self.outside(o, way.op),
            self.matches_up(way, s, t),
            (IfOp { op: o }).branch_meaning(later, later.running(acts, o, i, fuel), i, t) is Some,
        ensures
            (IfOp { op: o }).branch_meaning(self, self.running(acts, o, i, f), i, s) is Some,
        decreases fuel, 3nat, 0nat,
    {
        let none: Seq<int> = Seq::empty();
        let there = t.with_args(later.entry(o, i), none);
        assert(later.running(acts, o, i, fuel)(there) is Some);
        self.bodies_back(later, way, o, i);
        let start = s.with_args(self.entry(o, i), none);
        self.args_match(later, way, self.entry(o, i), none, s, t);
        let f = self.running_back(later, way, acts, o, i, start, there, fuel);
        assert(self.running(acts, o, i, f)(start) is Some);
        f
    }

    proof fn running_back(
        self,
        later: Ir,
        way: Replacement,
        acts: spec_fn(OpId, Seq<int>, int) -> (Seq<int>, int),
        o: OpId,
        i: int,
        s: State,
        t: State,
        fuel: nat,
    ) -> (f: nat)
        requires
            self.matched_by(later, way, acts),
            self.outside(o, way.op),
            self.matches_up(way, s, t),
            later.running(acts, o, i, fuel)(t) is Some,
        ensures
            self.running(acts, o, i, f)(s) is Some,
        decreases fuel, 2nat, 0nat,
    {
        let r = self.ops[o].regions[i];
        self.bodies_back(later, way, o, i);
        assert(self.same_but_renamed(later, way, o));
        let entry = self.entry(o, i);
        let f = self.ran_region_back(later, way, acts, o, i, entry, s, t, fuel);
        let h = self.ran_region_matches(later, way, acts, o, i, entry, s, t, f);
        later.ran_region_once(acts, r, entry, t, fuel, h);
        let end = self.ran_region(acts, r, entry, s, f)->0.block;
        self.ran_region_ends(acts, r, entry, s, f);
        self.entry_exit_in_range(o, i);
        assert(end == self.exit(o, i));
        self.ends_match(later, way, o, i, end);
        f
    }

    /// Operations that are not in the replaced one came to an end if they do now. Returns the
    /// number of steps that was enough.
    proof fn ran_all_back(
        self,
        later: Ir,
        way: Replacement,
        acts: spec_fn(OpId, Seq<int>, int) -> (Seq<int>, int),
        ops: Seq<OpId>,
        s: State,
        t: State,
        fuel: nat,
    ) -> (f: nat)
        requires
            self.matched_by(later, way, acts),
            forall|i: int| 0 <= i < ops.len() ==> self.outside(#[trigger] ops[i], way.op),
            self.matches_up(way, s, t),
            later.ran_all(acts, ops, t, fuel) is Some,
        ensures
            self.ran_all(acts, ops, s, f) is Some,
            self.matches_up(
                way,
                self.ran_all(acts, ops, s, f)->0,
                later.ran_all(acts, ops, t, fuel)->0,
            ),
        decreases fuel, 6nat, ops.len(),
    {
        if ops.len() == 0 {
            0
        } else {
            let rest = ops.drop_last();
            assert forall|i: int| 0 <= i < rest.len() implies self.outside(
                #[trigger] rest[i],
                way.op,
            ) by {
                assert(rest[i] == ops[i]);
            }
            let f = self.ran_all_back(later, way, acts, rest, s, t, fuel);
            let u = self.ran_all(acts, rest, s, f)->0;
            let w = later.ran_all(acts, rest, t, fuel)->0;
            assert(ops.last() == ops[ops.len() - 1]);
            let g = self.ran_back(later, way, acts, ops.last(), u, w, fuel);
            let most = if f <= g { g } else { f };
            self.ran_all_more(acts, rest, s, f, most);
            self.ran_more(acts, ops.last(), u, g, most);
            let h = self.ran_all_matches(later, way, acts, ops, s, t, most);
            later.ran_all_once(acts, ops, t, fuel, h);
            most
        }
    }

    /// The run of a region of an operation that is not in the replaced one came to an end if it
    /// does now. Returns the number of steps that was enough.
    pub(crate) proof fn ran_region_back(
        self,
        later: Ir,
        way: Replacement,
        acts: spec_fn(OpId, Seq<int>, int) -> (Seq<int>, int),
        o: OpId,
        i: int,
        block: BlockId,
        s: State,
        t: State,
        fuel: nat,
    ) -> (f: nat)
        requires
            self.matched_by(later, way, acts),
            self.outside(o, way.op),
            0 <= i < self.ops[o].regions.len(),
            self.blocks.contains_key(block),
            self.blocks[block].parent == self.ops[o].regions[i],
            self.matches_up(way, s, t),
            later.ran_region(acts, self.ops[o].regions[i], block, t, fuel) is Some,
        ensures
            self.ran_region(acts, self.ops[o].regions[i], block, s, f) is Some,
        decreases fuel, 1nat, 0nat,
    {
        let r = self.ops[o].regions[i];
        let ops = self.blocks[block].ops;
        let (f, mid, left) = self.to_end_back(later, way, acts, o, i, block, s, t, fuel);
        let less = (left - 1) as nat;
        let last = ops[ops.len() - 1];
        let x = self.ran_all(acts, ops.drop_last(), s, f)->0;
        let now = later.blocks[self.moved_end(way, block)].ops;
        let y = later.ran_all(acts, now.drop_last(), mid, less)->0;
        if self.ops[last].kind.closes() {
            f + 1
        } else {
            self.end_led_back(later, way, acts, o, i, block, x, y);
            let to = self.led(acts, last, x)->0;
            let there = later.led(acts, now.last(), y)->0;
            let g = self.ran_region_back(
                later,
                way,
                acts,
                o,
                i,
                to.block,
                to.state,
                there.state,
                less,
            );
            let most = if f <= g { g } else { f };
            self.ran_all_more(acts, ops.drop_last(), s, f, most);
            self.ran_region_more(acts, r, to.block, to.state, g, most);
            most + 1
        }
    }

    /// The branch at the end of a block led to a block of the same region, if what is now at the
    /// end of that block leads somewhere, which is to the same block.
    proof fn end_led_back(
        self,
        later: Ir,
        way: Replacement,
        acts: spec_fn(OpId, Seq<int>, int) -> (Seq<int>, int),
        o: OpId,
        i: int,
        block: BlockId,
        x: State,
        y: State,
    )
        requires
            self.matched_by(later, way, acts),
            self.outside(o, way.op),
            0 <= i < self.ops[o].regions.len(),
            self.blocks.contains_key(block),
            self.blocks[block].parent == self.ops[o].regions[i],
            self.blocks[block].ops.len() > 0,
            later.blocks[self.moved_end(way, block)].ops.last() == if self.blocks[block].ops.last()
                == way.op {
                way.new
            } else {
                self.blocks[block].ops.last()
            },
            self.matches_up(way, x, y),
            later.led(acts, later.blocks[self.moved_end(way, block)].ops.last(), y) is Some,
        ensures
            ({
                let to = self.led(acts, self.blocks[block].ops.last(), x);
                let now = later.led(acts, later.blocks[self.moved_end(way, block)].ops.last(), y);
                &&& to is Some
                &&& to->0.block == now->0.block
                &&& self.matches_up(way, to->0.state, now->0.state)
                &&& self.blocks.contains_key(to->0.block)
                &&& self.blocks[to->0.block].parent == self.blocks[block].parent
            }),
    {
        let last = self.blocks[block].ops[self.blocks[block].ops.len() - 1];
        self.inside_outside(later, way, o, i);
        if last != way.op {
            self.led_back(later, way, acts, last, x, y);
            self.led_matches(later, way, acts, last, x, y);
        }
        self.led_stays(acts, block, x);
    }

    /// What precedes the last operation of a block came to an end if control comes to an end now
    /// from the start of that block. Returns in how many steps, the state in which control gets
    /// now to the start of the block with that last operation, and in how many steps it comes to
    /// an end from there.
    proof fn to_end_back(
        self,
        later: Ir,
        way: Replacement,
        acts: spec_fn(OpId, Seq<int>, int) -> (Seq<int>, int),
        o: OpId,
        i: int,
        block: BlockId,
        s: State,
        t: State,
        fuel: nat,
    ) -> (there: (nat, State, nat))
        requires
            self.matched_by(later, way, acts),
            self.outside(o, way.op),
            0 <= i < self.ops[o].regions.len(),
            self.blocks.contains_key(block),
            self.blocks[block].parent == self.ops[o].regions[i],
            self.matches_up(way, s, t),
            later.ran_region(acts, self.ops[o].regions[i], block, t, fuel) is Some,
        ensures
            ({
                let r = self.ops[o].regions[i];
                let ops = self.blocks[block].ops;
                let dest = self.moved_end(way, block);
                let x = self.ran_all(acts, ops.drop_last(), s, there.0);
                let now = later.blocks[dest].ops;
                let less = (there.2 - 1) as nat;
                let y = later.ran_all(acts, now.drop_last(), there.1, less);
                &&& 0 < there.2 <= fuel
                &&& later.ran_region(acts, r, dest, there.1, there.2) is Some
                &&& ops.len() > 0
                &&& now.len() > 0
                &&& now.last() == if ops.last() == way.op {
                    way.new
                } else {
                    ops.last()
                }
                &&& x is Some
                &&& y is Some
                &&& self.matches_up(way, x->0, y->0)
                &&& later.ops[now.last()].kind.closes() == self.ops[ops.last()].kind.closes()
            }),
        decreases fuel, 0nat, 1nat,
    {
        let ops = self.blocks[block].ops;
        let holder = self.holder(way.op);
        self.inside_outside(later, way, o, i);
        self.position_in_range(way.op);
        let there = if block == holder && ops.last() != way.op {
            self.through_holder_back(later, way, acts, o, i, s, t, fuel)
        } else {
            let rest = ops.drop_last();
            assert(later.blocks[block].ops.len() == ops.len());
            assert(later.blocks[block].ops.drop_last() =~= rest);
            assert forall|k: int| 0 <= k < rest.len() implies self.outside(
                #[trigger] rest[k],
                way.op,
            ) by {
                assert(rest[k] == self.blocks[block].ops[k]);
            }
            let less = (fuel - 1) as nat;
            let f = self.ran_all_back(later, way, acts, rest, s, t, less);
            (f, t, fuel)
        };
        if ops.last() != way.op {
            assert(self.outside(self.blocks[block].ops[ops.len() - 1], way.op));
            assert(self.same_but_renamed(later, way, ops.last()));
        }
        there
    }

    /// What precedes the last operation of the block that held the replaced one came to an end if
    /// control comes to an end now from the start of that block. Returns in how many steps, the
    /// state in which control gets now to the start of the block with that last operation, and in
    /// how many steps it comes to an end from there.
    proof fn through_holder_back(
        self,
        later: Ir,
        way: Replacement,
        acts: spec_fn(OpId, Seq<int>, int) -> (Seq<int>, int),
        o: OpId,
        i: int,
        s: State,
        t: State,
        fuel: nat,
    ) -> (there: (nat, State, nat))
        requires
            self.matched_by(later, way, acts),
            self.outside(o, way.op),
            0 <= i < self.ops[o].regions.len(),
            self.blocks[self.holder(way.op)].parent == self.ops[o].regions[i],
            self.blocks[self.holder(way.op)].ops.last() != way.op,
            self.matches_up(way, s, t),
            later.ran_region(
                acts,
                self.ops[o].regions[i],
                self.holder(way.op),
                t,
                fuel,
            ) is Some,
        ensures
            ({
                let r = self.ops[o].regions[i];
                let ops = self.blocks[self.holder(way.op)].ops;
                let x = self.ran_all(acts, ops.drop_last(), s, there.0);
                let now = later.blocks[way.cont].ops;
                let less = (there.2 - 1) as nat;
                let y = later.ran_all(acts, now.drop_last(), there.1, less);
                &&& 0 < there.2 <= fuel
                &&& later.ran_region(acts, r, way.cont, there.1, there.2) is Some
                &&& now.len() > 0
                &&& now.last() == ops.last()
                &&& x is Some
                &&& y is Some
                &&& self.matches_up(way, x->0, y->0)
            }),
        decreases fuel, 0nat, 0nat,
    {
        let r = self.ops[o].regions[i];
        let holder = self.holder(way.op);
        let ops = self.blocks[holder].ops;
        let p = self.position(way.op);
        self.position_in_range(way.op);
        self.inside_outside(later, way, o, i);
        let up_to = ops.take(p + 1);
        let first = ops.take(p);
        let behind = ops.subrange(p + 1, ops.len() - 1);
        assert(ops.drop_last() =~= up_to + behind);
        assert forall|k: int| 0 <= k < behind.len() implies self.outside(
            #[trigger] behind[k],
            way.op,
        ) by {
            assert(behind[k] == self.blocks[holder].ops[p + 1 + k]);
        }
        let now = later.blocks[way.cont].ops;
        let (a, u, left) = if way.cont == holder {
            let less = (fuel - 1) as nat;
            assert(now.drop_last() =~= first.push(way.new) + behind);
            later.ran_all_joined(acts, first.push(way.new), behind, t, less);
            assert(self.passes(later, way, acts, t, less));
            let a = choose|f: nat| #[trigger] self.ran_through(acts, way.op, s, f) is Some;
            let done = self.ran_through(acts, way.op, s, a)->0;
            assert(self.crossed(later, way, acts, done, t));
            let b = choose|f: nat|
                {
                    let u = #[trigger] later.ran_all(acts, first.push(way.new), t, f);
                    u is Some && self.matches_up(way, done, u->0)
                };
            later.ran_all_once(acts, first.push(way.new), t, less, b);
            let u = later.ran_all(acts, first.push(way.new), t, less)->0;
            (a, u, fuel)
        } else {
            assert(self.passes(later, way, acts, t, fuel));
            let a = choose|f: nat| #[trigger] self.ran_through(acts, way.op, s, f) is Some;
            let done = self.ran_through(acts, way.op, s, a)->0;
            assert(self.crossed(later, way, acts, done, t));
            let u = choose|u: State|
                #[trigger] later.reaches(
                    acts,
                    self.blocks[holder].parent,
                    holder,
                    t,
                    way.cont,
                    u,
                ) && self.matches_up(way, done, u);
            let left = later.ran_region_after(acts, r, holder, t, way.cont, u, fuel);
            assert(now.drop_last() =~= behind);
            (a, u, left)
        };
        let less = (left - 1) as nat;
        let done = self.ran_through(acts, way.op, s, a)->0;
        let f = self.ran_all_back(later, way, acts, behind, done, u, less);
        let most = if f <= a { a } else { f };
        self.ran_all_more(acts, up_to, s, a, most);
        self.ran_all_more(acts, behind, done, f, most);
        self.ran_all_joined(acts, up_to, behind, s, most);
        if way.cont == holder {
            (most, t, left)
        } else {
            (most, u, left)
        }
    }
}

} // verus!
