//! A program with a loop over a single dimension does what the one with the plain loop does.

use crate::cf::ops::{ForOp, NDForOp};
use crate::cf::semantics::State;
use crate::cf::to_llvm::meaning::conversion::ConversionStep;
use crate::cf::to_llvm::meaning::whole::Replacement;
use crate::cf::to_llvm::CFToLLVM;
use crate::ir::model::{Def, Ir, OpView};
use crate::ir::types::{BlockId, OpId, OpKind, Type, Value};
use vstd::prelude::*;

verus! {

impl Ir {
    /// If all blocks in the regions of `op` are still as they were, and so is what ends these,
    /// then running a region of `op`, in states that agree, leads to states that agree, and, if
    /// branches stay in their regions, comes to an end only if it did.
    proof fn own_region_alike(
        self,
        later: Ir,
        op: OpId,
        acts: spec_fn(OpId, Seq<int>, int) -> (Seq<int>, int),
        i: int,
        block: BlockId,
        s: State,
        t: State,
        fuel: nat,
    )
        requires
            self.wf(),
            self.placed(op),
            !self.ops[op].regions.contains(self.blocks[self.holder(op)].parent),
            self.used_only_behind(op),
            self.same_beside(later, op),
            0 <= i < self.ops[op].regions.len(),
            later.blocks == self.blocks,
            forall|o: OpId| #[trigger]
                self.ops.contains_key(o) && o != op ==> self.same_op(later, o),
            self.blocks.contains_key(block),
            self.blocks[block].parent == self.ops[op].regions[i],
            self.agree(op, s, t),
        ensures
            ({
                let r = self.ops[op].regions[i];
                let end = self.ran_region(acts, r, block, s, fuel);
                let now = later.ran_region(acts, r, block, t, fuel);
                &&& end is Some ==> now is Some && now->0.block == end->0.block && self.agree(
                    op,
                    end->0.state,
                    now->0.state,
                )
                &&& self.branches_stay() && now is Some ==> end is Some
            }),
        decreases fuel,
    {
        let r = self.ops[op].regions[i];
        let ops = self.blocks[block].ops;
        if fuel > 0 && ops.len() > 0 {
            let less = (fuel - 1) as nat;
            let rest = ops.drop_last();
            let n = ops.len() - 1;
            let last = self.blocks[block].ops[n];
            self.others_stand(op);
            assert(self.ops[op].regions.contains(r));
            assert(self.clear(self.blocks[block].ops[n], op));
            assert(self.clear_to(last, op, 0));
            self.position_unique(block, n);
            assert(self.same_op(later, last));
            assert forall|k: int| 0 <= k < rest.len() implies self.stands(
                #[trigger] rest[k],
                op,
            ) by {
                assert(rest[k] == self.blocks[block].ops[k]);
            }
            self.ran_all_alike(later, op, acts, rest, s, t, less);
            if self.ran_all(acts, rest, s, less) is Some && !self.ops[last].kind.closes() {
                let x = self.ran_all(acts, rest, s, less)->0;
                let y = later.ran_all(acts, rest, t, less)->0;
                self.led_alike(later, acts, op, last, x, y);
                if self.led(acts, last, x) is Some {
                    let to = self.led(acts, last, x)->0;
                    let there = later.led(acts, last, y)->0;
                    if self.branches_stay() {
                        self.led_stays(acts, block, x);
                    }
                    if self.blocks.contains_key(to.block) && self.blocks[to.block].parent == r {
                        self.own_region_alike(
                            later,
                            op,
                            acts,
                            i,
                            to.block,
                            to.state,
                            there.state,
                            less,
                        );
                    }
                }
            }
        }
    }
}

impl NDForOp {
    /// Is this a loop over a single dimension, without results, in a block that it does not end,
    /// whose body ends with a `yield` without operands?
    pub open spec fn over_one_dimension(self, ir: Ir) -> bool {
        let op = ir.ops[self.op];
        &&& op.kind is CfNDFor
        &&& ir.placed(self.op)
        &&& op.segments == seq![1u32, 1, 1]
        &&& op.has_segment(2)
        &&& op.results.len() == 0
        &&& op.regions.len() == 1
        &&& ir.yields_outward(self.op, 0)
        &&& ir.ops[ir.exit_op(self.op, 0)].operands.len() == 0
        &&& ir.blocks[ir.holder(self.op)].ops.last() != self.op
    }

    /// The plain loop with the same bounds, step and body.
    pub open spec fn plain(self, ir: Ir) -> OpView {
        OpView { kind: OpKind::CfFor, segments: seq![3u32, 0], ..ir.ops[self.op] }
    }

    /// The representation that differs only in that the plain loop stands for this one.
    pub open spec fn as_plain(self, ir: Ir) -> Ir {
        Ir { ops: ir.ops.insert(self.op, self.plain(ir)), ..ir }
    }

    /// The plain loop is in the place of this one.
    pub open spec fn in_place(self, ir: Ir) -> Replacement {
        Replacement {
            op: self.op,
            new: self.op,
            cont: ir.holder(self.op),
            block: ir.holder(self.op),
            first: 0,
        }
    }

    /// The plain loop has the bounds, the step and the body of this one.
    proof fn plain_parts(self, ir: Ir)
        requires
            ir.wf(),
            self.over_one_dimension(ir),
        ensures
            self.is_plain(ir, ForOp { op: self.op }, self.as_plain(ir)),
            self.dims(ir) == 1,
    {
        let other = self.as_plain(ir);
        let op = ir.ops[self.op];
        let now = self.plain(ir);
        let plain = ForOp { op: self.op };
        op.earlier_segment(0, 2);
        op.earlier_segment(1, 2);
        op.segment_in_range(0);
        op.segment_in_range(1);
        op.segment_in_range(2);
        reveal_with_fuel(crate::ir::segments::Segments::total, 5);
        assert(op.segments.take(0).len() == 0);
        assert(op.segments.take(1) =~= seq![1u32]);
        assert(op.segments.take(2) =~= seq![1u32, 1]);
        assert(op.segments.take(3) =~= seq![1u32, 1, 1]);
        assert(now.segments.take(1) =~= seq![3u32]);
        assert(now.segments.take(2) =~= seq![3u32, 0]);
        assert(self.lower_bounds(ir) =~= seq![op.operands[0]]);
        assert(self.upper_bounds(ir) =~= seq![op.operands[1]]);
        assert(self.steps(ir) =~= seq![op.operands[2]]);
        assert(now.has_segment(0));
        assert(now.has_segment(1));
        ir.entry_exit_in_range(self.op, 0);
        let y = ir.exit_op(self.op, 0);
        assert(ir.ops[y].kind is CfYield);
        assert(y != self.op);
    }

    /// What the representation with the plain loop has in common with that of this one.
    proof fn plain_beside(self, ir: Ir)
        requires
            ir.wf(),
            self.over_one_dimension(ir),
        ensures
            !ir.ops[self.op].regions.contains(ir.blocks[ir.holder(self.op)].parent),
            ir.same_beside(self.as_plain(ir), self.op),
            ir.surrounded(self.as_plain(ir), self.in_place(ir)),
    {
        let other = self.as_plain(ir);
        let way = self.in_place(ir);
        let holder = ir.holder(self.op);
        ir.ordered();
        ir.position_in_range(self.op);
        let r = ir.blocks[holder].parent;
        assert(ir.regions[r].parent != self.op) by {
            assert(ir.ops[ir.regions[r].parent].regions.contains(r));
        }
        assert forall|o: OpId| #[trigger] ir.outside(o, self.op) implies ir.same_but_renamed(
            other,
            way,
            o,
        ) by {
            let operands = ir.ops[o].operands;
            ir.operands_there(o);
            assert forall|i: int| 0 <= i < operands.len() implies Ir::substituted(
                #[trigger] operands[i],
                way.op,
                way.block,
                way.first,
            ) == operands[i] by {
                assert(ir.has_value(operands[i]));
            }
            assert(way.stand_ins(operands) =~= operands);
        }
        let ops = ir.blocks[holder].ops;
        let p = ir.position(self.op);
        assert(ops.update(p, self.op) =~= ops);
    }

    /// The bodies of the two loops run alike.
    proof fn bodies_alike(
        self,
        ir: Ir,
        acts: spec_fn(OpId, Seq<int>, int) -> (Seq<int>, int),
        fuel: nat,
    )
        requires
            ir.wf(),
            self.over_one_dimension(ir),
            ir.used_only_behind(self.op),
        ensures
            ir.alike(
                self.op,
                ir.running(acts, self.op, 0, fuel),
                self.as_plain(ir).running(acts, self.op, 0, fuel),
            ),
    {
        let other = self.as_plain(ir);
        let run = ir.running(acts, self.op, 0, fuel);
        let now = other.running(acts, self.op, 0, fuel);
        self.plain_beside(ir);
        ir.entry_exit_in_range(self.op, 0);
        let entry = ir.entry(self.op, 0);
        let y = ir.exit_op(self.op, 0);
        assert(y != self.op);
        assert forall|s: State, t: State| #[trigger] ir.agree(self.op, s, t) implies {
            &&& run(s) is Some ==> now(t) is Some && ir.agree(self.op, run(s)->0, now(t)->0)
            &&& ir.branches_stay() && now(t) is Some ==> run(s) is Some
        } by {
            ir.own_region_alike(other, self.op, acts, 0, entry, s, t, fuel);
        }
    }

    /// The two loops lead to states that agree, and, if branches stay in their regions, the plain
    /// one comes to an end only if this one does.
    proof fn loops_alike(
        self,
        ir: Ir,
        acts: spec_fn(OpId, Seq<int>, int) -> (Seq<int>, int),
        s: State,
        t: State,
        fuel: nat,
    )
        requires
            ir.wf(),
            self.over_one_dimension(ir),
            ir.used_only_behind(self.op),
            ir.agree(self.op, s, t),
        ensures
            ({
                let end = ir.ran(acts, self.op, s, fuel);
                let now = self.as_plain(ir).ran(acts, self.op, t, fuel);
                &&& end is Some ==> now is Some && ir.agree(self.op, end->0, now->0)
                &&& ir.branches_stay() && now is Some ==> end is Some
            }),
    {
        let other = self.as_plain(ir);
        let op = ir.ops[self.op];
        let run = ir.running(acts, self.op, 0, fuel);
        let now = other.running(acts, self.op, 0, fuel);
        self.plain_parts(ir);
        self.bodies_alike(ir, acts, fuel);
        assert(ir.spares(self.op, self.op));
        ir.operands_alike(self.op, self.op, s, t);
        op.earlier_segment(0, 2);
        op.earlier_segment(1, 2);
        let none: Seq<int> = Seq::empty();
        self.nest_alike(
            ir,
            ir,
            self.op,
            run,
            now,
            s.read(self.lower_bounds(ir)),
            s.read(self.upper_bounds(ir)),
            s.read(self.steps(ir)),
            none,
            s,
            t,
            fuel,
        );
        assert(s.read(op.segment(0)) == t.read(op.segment(0)));
        assert(s.read(op.segment(1)) == t.read(op.segment(1)));
        assert(s.read(op.segment(2)) == t.read(op.segment(2)));
        let there = self.meaning(ir, now, t, fuel);
        self.single_dimension(ir, ForOp { op: self.op }, other, now, t, fuel);
        if there is Some {
            let x = there->0;
            let y = x.with_results(self.op, none);
            assert forall|v: Value|
                ir.has_value(v) && !Ir::is_result(v, self.op) implies (x.values)(v)
                == #[trigger] (y.values)(v) by {}
        }
    }

    /// The plain loop does what this one does and no more, and all else is as it was.
    pub proof fn plain_matched(
        self,
        ir: Ir,
        acts: spec_fn(OpId, Seq<int>, int) -> (Seq<int>, int),
    )
        requires
            ir.wf(),
            self.over_one_dimension(ir),
            ir.used_only_behind(self.op),
            ir.branches_stay(),
        ensures
            ir.matched_by(self.as_plain(ir), self.in_place(ir), acts),
    {
        let other = self.as_plain(ir);
        let way = self.in_place(ir);
        let holder = ir.holder(self.op);
        let p = ir.position(self.op);
        let first = ir.blocks[holder].ops.take(p);
        self.plain_beside(ir);
        ir.others_stand(self.op);
        let all = first.push(self.op);
        assert(all.drop_last() =~= first);
        assert forall|s: State, t: State, fuel: nat|
            #![trigger ir.matches_up(way, s, t), ir.ran_through(acts, way.op, s, fuel)]
            ir.matches_up(way, s, t) && ir.ran_through(acts, way.op, s, fuel)
                is Some implies ir.crossed(
            other,
            way,
            acts,
            ir.ran_through(acts, way.op, s, fuel)->0,
            t,
        ) by {
            ir.matches_agree(way, s, t);
            ir.ran_up_to(acts, self.op, s, fuel);
            ir.ran_all_alike(other, self.op, acts, first, s, t, fuel);
            let x = ir.ran_all(acts, first, s, fuel)->0;
            let y = other.ran_all(acts, first, t, fuel)->0;
            self.loops_alike(ir, acts, x, y, fuel);
            let u = other.ran_all(acts, all, t, fuel);
            ir.agree_matches(way, ir.ran_through(acts, self.op, s, fuel)->0, u->0);
        }
        assert forall|s: State, t: State, fuel: nat|
            #![trigger ir.matches_up(way, s, t), ir.passes(other, way, acts, t, fuel)]
            ir.matches_up(way, s, t) && ir.passes(other, way, acts, t, fuel) implies exists|f: nat|
            #[trigger] ir.ran_through(acts, way.op, s, f) is Some by {
            ir.matches_agree(way, s, t);
            ir.ran_all_alike(other, self.op, acts, first, s, t, fuel);
            let x = ir.ran_all(acts, first, s, fuel)->0;
            let y = other.ran_all(acts, first, t, fuel)->0;
            self.loops_alike(ir, acts, x, y, fuel);
            ir.ran_through_to(acts, self.op, s, fuel);
        }
    }

    /// The representation with the plain loop is well formed.
    proof fn plain_wf(self, ir: Ir)
        requires
            ir.wf(),
            self.over_one_dimension(ir),
        ensures
            self.as_plain(ir).wf(),
    {
        reveal(Ir::wf);
    }

    /// The two representations have the same frame.
    proof fn plain_frame(self, ir: Ir)
        requires
            ir.ops.contains_key(self.op),
        ensures
            ir.same_frame(self.as_plain(ir)),
    {
    }

    /// What is in order is so with the plain loop.
    proof fn plain_keeps_order(self, ir: Ir, o: OpId)
        requires
            ir.wf(),
            self.over_one_dimension(ir),
            CFToLLVM::in_order(ir, o),
            o != self.op,
        ensures
            CFToLLVM::in_order(self.as_plain(ir), o),
    {
        let other = self.as_plain(ir);
        let view = ir.ops[o];
        self.plain_frame(ir);
        assert(other.ops[o] == view);
        assert(other.position(o) == ir.position(o));
        if ir.used_only_behind(o) {
            ir.frame_used_only_behind(other, o);
        }
        assert forall|v: Value| #[trigger] ir.has_value(v) implies other.def(v) == ir.def(v) by {}
        assert forall|vs: Seq<Value>| #[trigger] other.lowered_types(vs) == ir.lowered_types(
            vs,
        ) by {
            assert forall|k: int| 0 <= k < vs.len() implies other.def(#[trigger] vs[k]) == ir.def(
                vs[k],
            ) by {}
            assert(other.lowered_types(vs) =~= ir.lowered_types(vs));
        }
        match view.kind {
            OpKind::CfFor => {
                let this = ForOp { op: o };
                ir.frame_fixed_in(other, this.body(ir), this.upper_bound(ir));
                ir.frame_fixed_in(other, this.body(ir), this.step(ir));
                ir.frame_fixed_in(other, this.body(ir), this.induction_variable(ir));
            },
            OpKind::CfNDFor => {
                assert forall|i: int| 0 <= i < view.operands.len() implies other.fixed_by(
                    o,
                    #[trigger] other.ops[o].operands[i],
                ) by {
                    let v = view.operands[i];
                    assert(ir.fixed_by(o, ir.ops[o].operands[i]));
                    assert forall|depth: nat| #[trigger] other.fixed_to(o, v, depth) by {
                        assert(ir.fixed_to(o, v, depth));
                        ir.frame_fixed(other, o, v, depth);
                    }
                }
            },
            _ => {},
        }
        assert forall|i: int, b: BlockId|
            #![trigger other.has_body(o, i), other.blocks[b]]
            other.has_body(o, i) && other.blocks.contains_key(b) && other.blocks[b].parent
                == other.ops[o].regions[i] && b != other.exit(o, i) && other.blocks[b].ops.len()
                > 0 implies !other.ops[other.blocks[b].ops.last()].kind.closes() by {
            assert(ir.has_body(o, i));
            assert(ir.blocks.contains_key(b));
        }
    }

    /// An argument of a block of the loop is defined by nothing that the loop is not in.
    proof fn variable_fixed_by(self, ir: Ir, c: OpId, depth: nat)
        requires
            ir.wf(),
            ir.has_body(self.op, 0),
            ir.ops.contains_key(c),
            ir.clear_to(c, self.op, depth),
        ensures
            ir.fixed_to(c, Value::BlockArgument { block: self.entry(ir), idx: 0 }, depth),
        decreases depth,
    {
        let iv = Value::BlockArgument { block: self.entry(ir), idx: 0 };
        ir.entry_exit_in_range(self.op, 0);
        if depth > 0 {
            let less = (depth - 1) as nat;
            assert forall|b: BlockId| #[trigger]
                ir.blocks.contains_key(b) && ir.ops[c].regions.contains(
                    ir.blocks[b].parent,
                ) implies !Ir::is_argument(iv, b) by {
                ir.region_there(c, ir.ops[c].regions.index_of(ir.blocks[b].parent));
            }
            assert forall|b: BlockId, k: int|
                #![trigger ir.blocks[b].ops[k]]
                ir.blocks.contains_key(b) && ir.ops[c].regions.contains(ir.blocks[b].parent) && 0
                    <= k < ir.blocks[b].ops.len() implies ir.fixed_to(
                ir.blocks[b].ops[k],
                iv,
                less,
            ) by {
                ir.position_unique(b, k);
                self.variable_fixed_by(ir, ir.blocks[b].ops[k], less);
            }
        }
    }

    /// The plain loop is in order, if no branch leads back to where the body starts.
    proof fn plain_in_order(self, ir: Ir)
        requires
            ir.wf(),
            self.over_one_dimension(ir),
            CFToLLVM::in_order(ir, self.op),
            !ir.targeted_in(self.body(ir), self.entry(ir)),
        ensures
            CFToLLVM::in_order(self.as_plain(ir), self.op),
    {
        let other = self.as_plain(ir);
        let this = ForOp { op: self.op };
        let op = ir.ops[self.op];
        let r = self.body(ir);
        let entry = self.entry(ir);
        let iv = Value::BlockArgument { block: entry, idx: 0 };
        self.plain_frame(ir);
        self.plain_parts(ir);
        ir.entry_exit_in_range(self.op, 0);
        ir.frame_used_only_behind(other, self.op);
        op.earlier_segment(0, 2);
        op.earlier_segment(1, 2);
        op.segment_in_range(0);
        op.segment_in_range(1);
        op.segment_in_range(2);
        let j = op.segment_start(1);
        let k = op.segment_start(2);
        let upper = op.operands[j];
        let step = op.operands[k];
        assert(self.upper_bounds(ir)[0] == upper);
        assert(self.steps(ir)[0] == step);
        assert(seq![this.upper_bound(other)][0] == this.upper_bound(other));
        assert(seq![this.step(other)][0] == this.step(other));
        assert(seq![this.lower_bound(other)][0] == this.lower_bound(other));
        assert(ir.fixed_by(self.op, op.operands[j]));
        assert(ir.fixed_by(self.op, op.operands[k]));
        ir.fixed_inside(self.op, upper, 0);
        ir.fixed_inside(self.op, step, 0);
        ir.frame_fixed_in(other, r, upper);
        ir.frame_fixed_in(other, r, step);
        assert(ir.fixed_in(r, iv)) by {
            assert forall|b: BlockId, k: int|
                #![trigger ir.blocks[b].ops[k]]
                ir.blocks.contains_key(b) && ir.blocks[b].parent == r && 0 <= k
                    < ir.blocks[b].ops.len() implies ir.fixed_by(ir.blocks[b].ops[k], iv) by {
                let c = ir.blocks[b].ops[k];
                assert(ir.ops[self.op].regions.contains(r));
                assert(ir.clear(ir.blocks[b].ops[k], self.op));
                ir.position_unique(b, k);
                assert forall|depth: nat| #[trigger] ir.fixed_to(c, iv, depth) by {
                    assert(ir.clear_to(c, self.op, depth));
                    self.variable_fixed_by(ir, c, depth);
                }
            }
        }
        ir.frame_fixed_in(other, r, iv);
        let types = ir.argument_types(entry);
        let lowers = self.lower_bounds(ir);
        assert(lowers.take(1) =~= lowers);
        assert(types.len() == 1);
        assert(types[0] == Type::signless(64));
        assert(ir.lowered_types(lowers)[0] == Type::signless(64));
        ir.operands_there(self.op);
        assert(lowers[0] == op.operands[op.segment_start(0) + 0]);
        assert(ir.has_value(lowers[0]));
        assert(other.def(lowers[0]) == ir.def(lowers[0]));
        let none: Seq<Value> = Seq::empty();
        assert(this.iter_args_init(other) =~= none);
        assert(this.loop_carried_variables(other) =~= none);
        assert(other.ops[this.yield_op(other)].operands =~= none);
        assert(op.results.map_values(|d: Def| d.ty.converted()) =~= other.lowered_types(none));
        assert forall|i: int, b: BlockId|
            #![trigger other.has_body(self.op, i), other.blocks[b]]
            other.has_body(self.op, i) && other.blocks.contains_key(b) && other.blocks[b].parent
                == other.ops[self.op].regions[i] && b != other.exit(self.op, i)
                && other.blocks[b].ops.len() > 0 implies !other.ops[
        other.blocks[b].ops.last()].kind.closes() by {
            assert(ir.has_body(self.op, i));
        }
    }

    /// With the plain loop, all that is to be lowered is in order.
    proof fn plain_all_in_order(self, ir: Ir, work: Set<OpId>)
        requires
            ir.wf(),
            self.over_one_dimension(ir),
            CFToLLVM::all_in_order(ir, work),
            work.contains(self.op),
            !ir.targeted_in(self.body(ir), self.entry(ir)),
        ensures
            CFToLLVM::all_in_order(self.as_plain(ir), work),
    {
        self.plain_frame(ir);
        ir.frame_stays(self.as_plain(ir));
        assert forall|o: OpId| #[trigger] work.contains(o) implies CFToLLVM::in_order(
            self.as_plain(ir),
            o,
        ) by {
            if o == self.op {
                self.plain_in_order(ir);
            } else {
                self.plain_keeps_order(ir, o);
            }
        }
    }

    /// Two programs that differ only in that one has a loop over a single dimension where the
    /// other one has the plain loop do the same. Take a region of an operation that is neither the
    /// loop nor directly in it. If a run of that region, from its start, comes to an end in the one
    /// program, it does so in the other: at the same operation, which is handed the same numbers,
    /// with all else the same.
    pub proof fn plain_program(
        self,
        ir: Ir,
        acts: spec_fn(OpId, Seq<int>, int) -> (Seq<int>, int),
        o: OpId,
        i: int,
        s: State,
        fuel: nat,
    )
        requires
            ir.wf(),
            self.over_one_dimension(ir),
            ir.used_only_behind(self.op),
            ir.branches_stay(),
            ir.outside(o, self.op),
            ir.has_body(o, i),
        ensures
            ({
                let end = ir.ran_region(acts, ir.ops[o].regions[i], ir.entry(o, i), s, fuel);
                end is Some ==> exists|f: nat|
                    ir.ends_alike(
                        self.as_plain(ir),
                        end->0,
                        #[trigger] self.as_plain(ir).ran_region(
                            acts,
                            ir.ops[o].regions[i],
                            ir.entry(o, i),
                            s,
                            f,
                        ),
                    )
            }),
            ({
                let now = self.as_plain(ir).ran_region(
                    acts,
                    ir.ops[o].regions[i],
                    ir.entry(o, i),
                    s,
                    fuel,
                );
                now is Some ==> exists|f: nat|
                    {
                        let end = #[trigger] ir.ran_region(
                            acts,
                            ir.ops[o].regions[i],
                            ir.entry(o, i),
                            s,
                            f,
                        );
                        end is Some && ir.ends_alike(self.as_plain(ir), end->0, now)
                    }
            }),
    {
        let other = self.as_plain(ir);
        let way = self.in_place(ir);
        let r = ir.ops[o].regions[i];
        let end = ir.ran_region(acts, r, ir.entry(o, i), s, fuel);
        let now = other.ran_region(acts, r, ir.entry(o, i), s, fuel);
        self.plain_matched(ir, acts);
        ir.bodies_match(other, way, o, i);
        assert(ir.agree(self.op, s, s));
        ir.agree_matches(way, s, s);
        if end is Some {
            ir.run_matches(other, way, acts, o, i, s, s, fuel);
            let f = choose|f: nat|
                ir.same_end(
                    other,
                    way,
                    end->0,
                    #[trigger] other.ran_region(
                        acts,
                        ir.ops[o].regions[i],
                        other.entry(o, i),
                        s,
                        f,
                    ),
                );
            assert(ir.ends_alike(
                other,
                end->0,
                other.ran_region(acts, ir.ops[o].regions[i], ir.entry(o, i), s, f),
            ));
        }
        if now is Some {
            ir.run_matches_back(other, way, acts, o, i, s, s, fuel);
            let f = choose|f: nat|
                {
                    let end = #[trigger] ir.ran_region(
                        acts,
                        ir.ops[o].regions[i],
                        ir.entry(o, i),
                        s,
                        f,
                    );
                    end is Some && ir.same_end(
                        other,
                        way,
                        end->0,
                        other.ran_region(acts, ir.ops[o].regions[i], other.entry(o, i), s, fuel),
                    )
                };
            let before = ir.ran_region(acts, ir.ops[o].regions[i], ir.entry(o, i), s, f);
            assert(ir.ends_alike(other, before->0, now));
        }
    }

    /// So do the two programs once they are converted, if no branch in the body of the loop leads
    /// back to where that starts. If a run of such a region comes to an end
    /// in what becomes of the one program, it does so in what becomes of the other: at the same
    /// operation, which is handed the same numbers, with all else the same. Whatever the
    /// operations of other dialects in the body do, they have thus been run as often, with the
    /// same induction variable, in the same order.
    pub proof fn plain_conversion(
        self,
        ir: Ir,
        work: Set<OpId>,
        steps: Seq<ConversionStep>,
        plain_steps: Seq<ConversionStep>,
        acts: spec_fn(OpId, Seq<int>, int) -> (Seq<int>, int),
        o: OpId,
        i: int,
        s: State,
        fuel: nat,
    )
        requires
            ir.wf(),
            self.over_one_dimension(ir),
            work.contains(self.op),
            CFToLLVM::all_in_order(ir, work),
            !ir.targeted_in(self.body(ir), self.entry(ir)),
            CFToLLVM::goes_through(ir, work, steps),
            CFToLLVM::goes_through(self.as_plain(ir), work, plain_steps),
            CFToLLVM::beyond(ir, work, o),
            ir.has_body(o, i),
        ensures
            ({
                let one = CFToLLVM::converted(ir, steps);
                let other = CFToLLVM::converted(self.as_plain(ir), plain_steps);
                let x = CFToLLVM::carried_all(ir, steps, s);
                let y = CFToLLVM::carried_all(self.as_plain(ir), plain_steps, s);
                let r = ir.ops[o].regions[i];
                let end = one.ran_region(acts, r, one.entry(o, i), x, fuel);
                let now = other.ran_region(acts, r, other.entry(o, i), y, fuel);
                &&& end is Some ==> exists|f: nat|
                    one.ends_alike(
                        other,
                        end->0,
                        #[trigger] other.ran_region(acts, r, other.entry(o, i), y, f),
                    )
                &&& now is Some ==> exists|f: nat|
                    other.ends_alike(
                        one,
                        now->0,
                        #[trigger] one.ran_region(acts, r, one.entry(o, i), x, f),
                    )
            }),
    {
        let plain = self.as_plain(ir);
        let one = CFToLLVM::converted(ir, steps);
        let other = CFToLLVM::converted(plain, plain_steps);
        let x = CFToLLVM::carried_all(ir, steps, s);
        let y = CFToLLVM::carried_all(plain, plain_steps, s);
        let r = ir.ops[o].regions[i];
        let end = one.ran_region(acts, r, one.entry(o, i), x, fuel);
        let now = other.ran_region(acts, r, other.entry(o, i), y, fuel);
        self.plain_wf(ir);
        self.plain_all_in_order(ir, work);
        assert(CFToLLVM::in_order(ir, self.op));
        assert(ir.outside(o, self.op));
        assert(CFToLLVM::beyond(plain, work, o));
        assert(plain.entry(o, i) == ir.entry(o, i));
        if end is Some {
            CFToLLVM::conversion_adds_nothing(ir, work, steps, acts, o, i, s, fuel);
            let f = choose|f: nat|
                {
                    let was = #[trigger] ir.ran_region(
                        acts,
                        ir.ops[o].regions[i],
                        ir.entry(o, i),
                        s,
                        f,
                    );
                    was is Some && ir.ends_alike(one, was->0, end)
                };
            let was = ir.ran_region(acts, r, ir.entry(o, i), s, f)->0;
            self.plain_program(ir, acts, o, i, s, f);
            let g = choose|g: nat|
                ir.ends_alike(
                    plain,
                    was,
                    #[trigger] plain.ran_region(
                        acts,
                        ir.ops[o].regions[i],
                        ir.entry(o, i),
                        s,
                        g,
                    ),
                );
            let mid = plain.ran_region(acts, r, plain.entry(o, i), s, g)->0;
            CFToLLVM::conversion_keeps_meaning(plain, work, plain_steps, acts, o, i, s, g);
            let h = choose|h: nat|
                plain.ends_alike(
                    other,
                    mid,
                    #[trigger] other.ran_region(
                        acts,
                        plain.ops[o].regions[i],
                        other.entry(o, i),
                        y,
                        h,
                    ),
                );
            assert(one.ends_alike(
                other,
                end->0,
                other.ran_region(acts, r, other.entry(o, i), y, h),
            ));
        }
        if now is Some {
            CFToLLVM::conversion_adds_nothing(plain, work, plain_steps, acts, o, i, s, fuel);
            let f = choose|f: nat|
                {
                    let was = #[trigger] plain.ran_region(
                        acts,
                        plain.ops[o].regions[i],
                        plain.entry(o, i),
                        s,
                        f,
                    );
                    was is Some && plain.ends_alike(other, was->0, now)
                };
            let was = plain.ran_region(acts, r, ir.entry(o, i), s, f);
            self.plain_program(ir, acts, o, i, s, f);
            let g = choose|g: nat|
                {
                    let first = #[trigger] ir.ran_region(
                        acts,
                        ir.ops[o].regions[i],
                        ir.entry(o, i),
                        s,
                        g,
                    );
                    first is Some && ir.ends_alike(plain, first->0, was)
                };
            let first = ir.ran_region(acts, r, ir.entry(o, i), s, g)->0;
            CFToLLVM::conversion_keeps_meaning(ir, work, steps, acts, o, i, s, g);
            let h = choose|h: nat|
                ir.ends_alike(
                    one,
                    first,
                    #[trigger] one.ran_region(
                        acts,
                        ir.ops[o].regions[i],
                        one.entry(o, i),
                        x,
                        h,
                    ),
                );
            assert(other.ends_alike(
                one,
                now->0,
                one.ran_region(acts, r, one.entry(o, i), x, h),
            ));
        }
    }
}

} // verus!
