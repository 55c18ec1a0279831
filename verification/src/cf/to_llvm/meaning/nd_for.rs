//! Lowering a loop over several dimensions keeps what it means.

use crate::cf::ops::{ForOp, NDForOp};
use crate::cf::semantics::{Arrival, State};
use crate::ir::model::Ir;
use crate::ir::segments::Segments;
use crate::ir::types::{BlockId, OpId, RegionId, Value};
use vstd::prelude::*;

verus! {

impl NDForOp {
    /// Are the bounds and the steps defined outside of the loop?
    pub open spec fn steady(self, ir: Ir) -> bool {
        forall|i: int|
            0 <= i < ir.ops[self.op].operands.len() ==> ir.fixed_by(
                self.op,
                #[trigger] ir.ops[self.op].operands[i],
            )
    }

    /// Loop `i` of the nest.
    spec fn nest_loop(self, ir: Ir, i: int) -> ForOp {
        ForOp { op: self.loop_op(ir, i) }
    }

    /// The induction variable of loop `i` of the nest.
    spec fn nest_variable(self, ir: Ir, i: int) -> Value {
        Value::BlockArgument { block: self.loop_entry(ir, i), idx: 0 }
    }

    /// Can the lowering be looked into?
    spec fn ready(self, ir: Ir) -> bool {
        &&& ir.wf()
        &&& self.lowerable(ir)
        &&& self.lowered(ir).wf()
        &&& ir.used_only_behind(self.op)
    }

    /// The parts of loop `i` of the nest.
    proof fn nest_parts(self, ir: Ir, i: int)
        requires
            self.ready(ir),
            0 <= i < self.dims(ir),
        ensures
            ({
                let after = self.lowered(ir);
                let this = self.nest_loop(ir, i);
                let view = after.ops[this.op];
                let d = self.dims(ir) - 1 - i;
                let entry = self.loop_entry(ir, i);
                let region = self.loop_region(ir, i);
                let y = self.loop_yield(ir, i);
                &&& after.ops.contains_key(this.op)
                &&& !ir.ops.contains_key(this.op)
                &&& view.kind is CfFor
                &&& view.regions == seq![region]
                &&& this.has_bounds(after, 3)
                &&& view.has_segment(1)
                &&& this.lower_bound(after) == self.lower_bounds(ir)[d]
                &&& this.upper_bound(after) == self.upper_bounds(ir)[d]
                &&& this.step(after) == self.steps(ir)[d]
                &&& this.iter_args_init(after) == Seq::<Value>::empty()
                &&& after.has_body(this.op, 0)
                &&& this.body(after) == region
                &&& this.entry(after) == entry
                &&& this.yield_op(after) == y
                &&& this.exit(after) == if i == 0 { self.exit(ir) } else { entry }
                &&& after.ops[y].kind is CfYield
                &&& after.ops[y].operands == Seq::<Value>::empty()
                &&& after.ops[y].regions.len() == 0
                &&& !ir.blocks.contains_key(entry)
                &&& after.blocks.contains_key(entry)
                &&& after.blocks[entry].parent == region
                &&& after.blocks[entry].ops == if i == 0 {
                    seq![self.jump(ir)]
                } else {
                    seq![self.loop_op(ir, i - 1), y]
                }
                &&& after.blocks[self.exit(ir)].ops == ir.blocks[self.exit(ir)].ops.drop_last().push(
                    self.loop_yield(ir, 0),
                )
                &&& after.ops[self.jump(ir)].kind is LlvmBr
                &&& after.ops[self.jump(ir)].successors == seq![self.entry(ir)]
                &&& after.ops[self.jump(ir)].operands == self.indices(ir)
                &&& after.ops[self.jump(ir)].regions.len() == 0
                &&& forall|j: int| 0 <= j < self.dims(ir) && j != i ==> #[trigger] self.loop_entry(
                    ir,
                    j,
                ) != entry
            }),
    {
        let after = self.lowered(ir);
        let this = self.nest_loop(ir, i);
        let n = self.dims(ir);
        assert(after.next_op <= usize::MAX && after.next_block <= usize::MAX
            && after.next_region <= usize::MAX) by {
            reveal(Ir::wf);
        }
        assert(forall|o: OpId| ir.ops.contains_key(o) ==> o < ir.next_op) by {
            reveal(Ir::wf);
        }
        assert(forall|b: BlockId| ir.blocks.contains_key(b) ==> b < ir.next_block) by {
            reveal(Ir::wf);
        }
        assert(forall|r: RegionId| ir.regions.contains_key(r) ==> r < ir.next_region) by {
            reveal(Ir::wf);
        }
        ir.entry_exit_in_range(self.op, 0);
        ir.position_in_range(self.op);
        let view = after.ops[this.op];
        let bounds = view.operands;
        assert(view.segments == seq![3u32, 0u32]);
        assert(view.operands.len() == 3);
        Segments::total_step(view.segments, 0);
        Segments::total_step(view.segments, 1);
        assert(view.segments.take(0).len() == 0);
        assert(view.segments.take(2) =~= view.segments);
        view.all_segments_there();
        assert(view.segment(0) =~= bounds);
        assert(view.segment(1) =~= Seq::<Value>::empty());
        assert(after.regions.contains_key(self.loop_region(ir, i)));
    }

    /// What the lowering leaves as it is: all code beside the loop.
    proof fn code_kept(self, ir: Ir)
        requires
            self.ready(ir),
        ensures
            !ir.ops[self.op].regions.contains(ir.blocks[ir.holder(self.op)].parent),
            ir.same_beside(self.lowered(ir), self.op),
            ir.regions.contains_key(self.body(ir)),
            forall|b: BlockId| #[trigger]
                ir.blocks.contains_key(b) && ir.blocks[b].parent == self.body(ir)
                    ==> self.lowered(ir).blocks.contains_key(b) && self.lowered(ir).blocks[b].parent
                    == self.loop_region(ir, 0) && (b != self.exit(ir) ==> self.lowered(
                    ir,
                ).blocks[b].ops == ir.blocks[b].ops),
            self.lowered(ir).regions[self.loop_region(ir, 0)].blocks.last() == self.exit(ir),
    {
        let after = self.lowered(ir);
        assert(after.next_op <= usize::MAX && after.next_block <= usize::MAX
            && after.next_region <= usize::MAX) by {
            reveal(Ir::wf);
        }
        assert(forall|o: OpId| ir.ops.contains_key(o) ==> o < ir.next_op) by {
            reveal(Ir::wf);
        }
        assert(forall|b: BlockId| ir.blocks.contains_key(b) ==> b < ir.next_block) by {
            reveal(Ir::wf);
        }
        assert(forall|r: RegionId| ir.regions.contains_key(r) ==> r < ir.next_region) by {
            reveal(Ir::wf);
        }
        assert(forall|r: RegionId| #[trigger]
            ir.regions.contains_key(r) && ir.regions[r].parent == self.op ==> r == self.body(
                ir,
            )) by {
            reveal(Ir::wf);
        }
        assert(forall|b: BlockId| #[trigger]
            ir.blocks.contains_key(b) ==> ir.regions.contains_key(ir.blocks[b].parent)) by {
            reveal(Ir::wf);
        }
        ir.entry_exit_in_range(self.op, 0);
        ir.position_in_range(self.op);
        assert(ir.ends(self.yield_op(ir), self.op));
        assert forall|b: BlockId| #[trigger]
            ir.blocks.contains_key(b) && ir.blocks[b].parent == self.body(ir) implies b
            != ir.holder(self.op) by {}
    }

    /// If the body runs to its end, then, in a state that agrees, it still does so where it is
    /// now, in the innermost loop of the nest.
    proof fn body_moved(
        self,
        ir: Ir,
        acts: spec_fn(OpId, Seq<int>, int) -> (Seq<int>, int),
        block: BlockId,
        s: State,
        t: State,
        fuel: nat,
    )
        requires
            self.ready(ir),
            ir.agree(self.op, s, t),
            ir.blocks.contains_key(block),
            ir.blocks[block].parent == self.body(ir),
            ({
                let end = ir.ran_region(acts, self.body(ir), block, s, fuel);
                end is Some && end->0.block == self.exit(ir)
            }),
        ensures
            ({
                let end = ir.ran_region(acts, self.body(ir), block, s, fuel)->0;
                let now = self.lowered(ir).ran_region(acts, self.loop_region(ir, 0), block, t, fuel);
                &&& now is Some
                &&& now->0.block == self.exit(ir)
                &&& ir.agree(self.op, end.state, now->0.state)
            }),
        decreases fuel,
    {
        let after = self.lowered(ir);
        let body = self.body(ir);
        let ops = ir.blocks[block].ops;
        let rest = ops.drop_last();
        let less = (fuel - 1) as nat;
        self.code_kept(ir);
        self.nest_parts(ir, 0);
        ir.others_stand(self.op);
        ir.entry_exit_in_range(self.op, 0);
        assert(ir.ops[self.op].regions.contains(body));
        assert forall|k: int| 0 <= k < rest.len() implies ir.stands(#[trigger] rest[k], self.op) by {
            assert(rest[k] == ir.blocks[block].ops[k]);
        }
        ir.ran_all_alike(after, self.op, acts, rest, s, t, less);
        let now = after.blocks[block].ops;
        assert(now.drop_last() =~= rest);
        if !ir.ops[ops.last()].kind.closes() {
            let x = ir.ran_all(acts, rest, s, less)->0;
            let y = after.ran_all(acts, rest, t, less)->0;
            let o = ir.blocks[block].ops[ops.len() - 1];
            assert(ir.stands(o, self.op));
            assert(ir.clear_to(o, self.op, 0));
            ir.led_alike(after, acts, self.op, o, x, y);
            let to = ir.led(acts, o, x)->0;
            let there = after.led(acts, o, y)->0;
            self.body_moved(ir, acts, to.block, to.state, there.state, less);
        } else {
            assert(now.last() == self.loop_yield(ir, 0));
        }
    }

    /// What has nothing to do with the loop does not define the induction variables of the nest.
    proof fn old_code_fixes(self, ir: Ir, o: OpId, j: int, depth: nat)
        requires
            self.ready(ir),
            0 <= j < self.dims(ir),
            ir.stands(o, self.op),
        ensures
            self.lowered(ir).fixed_to(o, self.nest_variable(ir, j), depth),
        decreases depth,
    {
        let after = self.lowered(ir);
        let v = self.nest_variable(ir, j);
        self.code_kept(ir);
        self.nest_parts(ir, j);
        assert(ir.clear_to(o, self.op, 0));
        assert(ir.same_op(after, o));
        if depth > 0 {
            self.old_regions(ir, o);
            assert forall|b: BlockId, i: int|
                #![trigger after.blocks[b].ops[i]]
                after.blocks.contains_key(b) && after.ops[o].regions.contains(
                    after.blocks[b].parent,
                ) && 0 <= i < after.blocks[b].ops.len() implies after.fixed_to(
                after.blocks[b].ops[i],
                v,
                (depth - 1) as nat,
            ) by {
                let k = ir.ops[o].regions.index_of(after.blocks[b].parent);
                ir.inside_kept(after, o, self.op, k);
                assert(ir.all_stand(ir.blocks[b].ops, self.op));
                self.old_code_fixes(ir, ir.blocks[b].ops[i], j, (depth - 1) as nat);
            }
        }
    }

    /// The blocks after the lowering are those that were there before, of which those in the body
    /// are now in the innermost loop of the nest, and the entries of the loops.
    proof fn blocks_sorted(self, ir: Ir, b: BlockId)
        requires
            self.ready(ir),
            self.lowered(ir).blocks.contains_key(b),
        ensures
            ({
                let after = self.lowered(ir);
                let i = b - ir.next_block;
                if ir.blocks.contains_key(b) {
                    &&& ir.regions.contains_key(ir.blocks[b].parent)
                    &&& ir.blocks[b].parent < ir.next_region
                    &&& after.blocks[b].parent == if ir.blocks[b].parent == self.body(ir) {
                        self.loop_region(ir, 0)
                    } else {
                        ir.blocks[b].parent
                    }
                } else {
                    &&& 0 <= i < self.dims(ir)
                    &&& b == self.loop_entry(ir, i)
                    &&& after.blocks[b].parent == self.loop_region(ir, i)
                }
            }),
            forall|i: int|
                0 <= i < self.dims(ir) ==> #[trigger] self.loop_region(ir, i) == ir.next_region + i,
    {
        let after = self.lowered(ir);
        assert(after.next_region <= usize::MAX && after.next_block <= usize::MAX) by {
            reveal(Ir::wf);
        }
        assert(forall|b: BlockId| ir.blocks.contains_key(b) ==> b < ir.next_block) by {
            reveal(Ir::wf);
        }
        ir.position_in_range(self.op);
        if ir.blocks.contains_key(b) {
            assert(ir.regions.contains_key(ir.blocks[b].parent) && ir.blocks[b].parent
                < ir.next_region) by {
                reveal(Ir::wf);
            }
        }
    }

    /// The blocks in the regions of an operation that was there before, and has nothing to do
    /// with the loop, were there before.
    proof fn old_regions(self, ir: Ir, o: OpId)
        requires
            self.ready(ir),
            ir.stands(o, self.op),
        ensures
            forall|b: BlockId| #[trigger]
                self.lowered(ir).blocks.contains_key(b) && ir.ops[o].regions.contains(
                    self.lowered(ir).blocks[b].parent,
                ) ==> ir.blocks.contains_key(b) && ir.blocks[b].parent == self.lowered(
                    ir,
                ).blocks[b].parent,
    {
        let after = self.lowered(ir);
        assert forall|b: BlockId| #[trigger]
            after.blocks.contains_key(b) && ir.ops[o].regions.contains(
                after.blocks[b].parent,
            ) implies ir.blocks.contains_key(b) && ir.blocks[b].parent
            == after.blocks[b].parent by {
            let k = ir.ops[o].regions.index_of(after.blocks[b].parent);
            ir.region_there(o, k);
            assert(after.blocks[b].parent < ir.next_region) by {
                reveal(Ir::wf);
            }
            self.blocks_sorted(ir, b);
            let i = if ir.blocks.contains_key(b) { 0 } else { b - ir.next_block };
            assert(self.loop_region(ir, i) == ir.next_region + i);
        }
    }

    /// The inner loops of the nest do not define the induction variables of the outer ones.
    proof fn inner_loops_fix(self, ir: Ir, i: int, j: int, depth: nat)
        requires
            self.ready(ir),
            0 <= i < j < self.dims(ir),
        ensures
            self.lowered(ir).fixed_to(self.loop_op(ir, i), self.nest_variable(ir, j), depth),
        decreases depth,
    {
        let after = self.lowered(ir);
        let v = self.nest_variable(ir, j);
        let o = self.loop_op(ir, i);
        let region = self.loop_region(ir, i);
        self.nest_parts(ir, i);
        self.nest_parts(ir, 0);
        self.nest_parts(ir, j);
        if depth > 0 {
            let less = (depth - 1) as nat;
            let y = self.loop_yield(ir, i);
            assert(after.ops[o].regions == seq![region]);
            self.nest_blocks(ir, i);
            assert forall|b: BlockId, k: int|
                #![trigger after.blocks[b].ops[k]]
                after.blocks.contains_key(b) && after.ops[o].regions.contains(
                    after.blocks[b].parent,
                ) && 0 <= k < after.blocks[b].ops.len() implies after.fixed_to(
                after.blocks[b].ops[k],
                v,
                less,
            ) by {
                assert(after.blocks[b].parent == region);
                let c = after.blocks[b].ops[k];
                if b == self.loop_entry(ir, i) {
                    if i == 0 {
                        assert(c == self.jump(ir));
                        self.leaf_fixes(ir, c, v, less);
                    } else if k == 0 {
                        self.inner_loops_fix(ir, i - 1, j, less);
                    } else {
                        assert(c == y);
                        self.leaf_fixes(ir, c, v, less);
                    }
                } else {
                    self.code_kept(ir);
                    ir.others_stand(self.op);
                    assert(ir.ops[self.op].regions.contains(self.body(ir)));
                    if b == self.exit(ir) && k == after.blocks[b].ops.len() - 1 {
                        assert(c == self.loop_yield(ir, 0));
                        self.leaf_fixes(ir, c, v, less);
                    } else {
                        assert(c == ir.blocks[b].ops[k]);
                        self.old_code_fixes(ir, c, j, less);
                    }
                }
            }
        }
    }

    /// An operation without regions defines no arguments of blocks.
    proof fn leaf_fixes(self, ir: Ir, o: OpId, v: Value, depth: nat)
        requires
            self.lowered(ir).ops[o].regions.len() == 0,
            v is BlockArgument,
        ensures
            self.lowered(ir).fixed_to(o, v, depth),
    {
    }

    /// The blocks of loop `i` of the nest: its entry, and, in the innermost one, the blocks of
    /// the given body.
    proof fn nest_blocks(self, ir: Ir, i: int)
        requires
            self.ready(ir),
            0 <= i < self.dims(ir),
        ensures
            forall|b: BlockId| #[trigger]
                self.lowered(ir).blocks.contains_key(b) && self.lowered(ir).blocks[b].parent
                    == self.loop_region(ir, i) ==> b == self.loop_entry(ir, i) || (i == 0
                    && ir.blocks.contains_key(b) && ir.blocks[b].parent == self.body(ir)),
    {
        let after = self.lowered(ir);
        assert forall|b: BlockId| #[trigger]
            after.blocks.contains_key(b) && after.blocks[b].parent == self.loop_region(
                ir,
                i,
            ) implies b == self.loop_entry(ir, i) || (i == 0 && ir.blocks.contains_key(b)
            && ir.blocks[b].parent == self.body(ir)) by {
            self.blocks_sorted(ir, b);
            let k = if ir.blocks.contains_key(b) { 0 } else { b - ir.next_block };
            assert(self.loop_region(ir, k) == ir.next_region + k);
            assert(self.loop_region(ir, i) == ir.next_region + i);
        }
    }

    /// Are the induction variables of the outer loops of the nest the given numbers?
    spec fn knows(self, ir: Ir, ivs: Seq<int>, t: State) -> bool {
        forall|k: int|
            0 <= k < ivs.len() ==> (t.values)(
                #[trigger] self.nest_variable(ir, self.dims(ir) - 1 - k),
            ) == ivs[k]
    }

    /// Are the bounds and the steps the given numbers?
    spec fn bounded_by(
        self,
        ir: Ir,
        lowers: Seq<int>,
        uppers: Seq<int>,
        steps: Seq<int>,
        s: State,
    ) -> bool {
        &&& s.read(self.lower_bounds(ir)) == lowers
        &&& s.read(self.upper_bounds(ir)) == uppers
        &&& s.read(self.steps(ir)) == steps
    }

    /// The bounds and the steps are operands of the loop.
    proof fn bounds_there(self, ir: Ir)
        requires
            self.ready(ir),
        ensures
            self.dims(ir) <= self.lower_bounds(ir).len(),
            self.dims(ir) <= self.upper_bounds(ir).len(),
            self.dims(ir) <= self.steps(ir).len(),
            forall|i: int|
                0 <= i < self.lower_bounds(ir).len() ==> ir.ops[self.op].operands.contains(
                    #[trigger] self.lower_bounds(ir)[i],
                ),
            forall|i: int|
                0 <= i < self.upper_bounds(ir).len() ==> ir.ops[self.op].operands.contains(
                    #[trigger] self.upper_bounds(ir)[i],
                ),
            forall|i: int|
                0 <= i < self.steps(ir).len() ==> ir.ops[self.op].operands.contains(
                    #[trigger] self.steps(ir)[i],
                ),
            forall|v: Value| #[trigger]
                ir.ops[self.op].operands.contains(v) ==> ir.has_value(v) && !Ir::is_result(
                    v,
                    self.op,
                ),
    {
        let op = ir.ops[self.op];
        op.earlier_segment(0, 2);
        op.earlier_segment(1, 2);
        op.segment_in_range(0);
        op.segment_in_range(1);
        op.segment_in_range(2);
        ir.operands_there(self.op);
        assert forall|i: int| 0 <= i < self.lower_bounds(ir).len() implies op.operands.contains(
            #[trigger] self.lower_bounds(ir)[i],
        ) by {
            assert(self.lower_bounds(ir)[i] == op.operands[op.segment_start(0) + i]);
        }
        assert forall|i: int| 0 <= i < self.upper_bounds(ir).len() implies op.operands.contains(
            #[trigger] self.upper_bounds(ir)[i],
        ) by {
            assert(self.upper_bounds(ir)[i] == op.operands[op.segment_start(1) + i]);
        }
        assert forall|i: int| 0 <= i < self.steps(ir).len() implies op.operands.contains(
            #[trigger] self.steps(ir)[i],
        ) by {
            assert(self.steps(ir)[i] == op.operands[op.segment_start(2) + i]);
        }
    }

    /// Running the body leaves the bounds and the steps as they are.
    proof fn bounds_stay(
        self,
        ir: Ir,
        acts: spec_fn(OpId, Seq<int>, int) -> (Seq<int>, int),
        lowers: Seq<int>,
        uppers: Seq<int>,
        steps: Seq<int>,
        ivs: Seq<int>,
        s: State,
        fuel: nat,
        count: nat,
    )
        requires
            self.ready(ir),
            self.steady(ir),
            self.bounded_by(ir, lowers, uppers, steps, s),
            self.nest(
                ir,
                ir.running(acts, self.op, 0, fuel),
                lowers,
                uppers,
                steps,
                ivs,
                s,
                count,
            ) is Some,
        ensures
            self.bounded_by(
                ir,
                lowers,
                uppers,
                steps,
                self.nest(
                    ir,
                    ir.running(acts, self.op, 0, fuel),
                    lowers,
                    uppers,
                    steps,
                    ivs,
                    s,
                    count,
                )->0,
            ),
    {
        let run = ir.running(acts, self.op, 0, fuel);
        let end = self.nest(ir, run, lowers, uppers, steps, ivs, s, count)->0;
        self.bounds_there(ir);
        ir.entry_exit_in_range(self.op, 0);
        assert forall|v: Value| #[trigger] ir.ops[self.op].operands.contains(v) implies (
        end.values)(v) == (s.values)(v) by {
            let i = ir.ops[self.op].operands.index_of(v);
            assert(ir.fixed_by(self.op, ir.ops[self.op].operands[i]));
            ir.running_leaves(acts, self.op, 0, fuel, v);
            self.nest_leaves(ir, run, lowers, uppers, steps, ivs, s, count, v);
        }
        assert(end.read(self.lower_bounds(ir)) =~= s.read(self.lower_bounds(ir)));
        assert(end.read(self.upper_bounds(ir)) =~= s.read(self.upper_bounds(ir)));
        assert(end.read(self.steps(ir)) =~= s.read(self.steps(ir)));
    }

    /// The state at the end of the given body, where it is now, with the given numbers as its
    /// arguments.
    spec fn ran_inside(
        self,
        ir: Ir,
        acts: spec_fn(OpId, Seq<int>, int) -> (Seq<int>, int),
        ivs: Seq<int>,
        t: State,
        f: nat,
    ) -> Option<State> {
        let start = t.with_args(self.entry(ir), ivs);
        match self.lowered(ir).ran_region(
            acts,
            self.loop_region(ir, 0),
            self.entry(ir),
            start,
            f,
        ) {
            None => None,
            Some(end) => if end.block == self.exit(ir) {
                Some(end.state)
            } else {
                None
            },
        }
    }

    /// Within what loops of the nest the remaining dimensions are run: if there is one, the
    /// outermost of these loops does what the rest of the given loops does; otherwise the
    /// body does, from the start of its entry. Returns the number of steps that is enough.
    proof fn nest_runs(
        self,
        ir: Ir,
        acts: spec_fn(OpId, Seq<int>, int) -> (Seq<int>, int),
        lowers: Seq<int>,
        uppers: Seq<int>,
        steps: Seq<int>,
        ivs: Seq<int>,
        s: State,
        t: State,
        fuel: nat,
        count: nat,
    ) -> (f: nat)
        requires
            self.ready(ir),
            self.steady(ir),
            ivs.len() <= self.dims(ir),
            self.bounded_by(ir, lowers, uppers, steps, s),
            self.knows(ir, ivs, t),
            ir.agree(self.op, s, t),
            self.nest(
                ir,
                ir.running(acts, self.op, 0, fuel),
                lowers,
                uppers,
                steps,
                ivs,
                s,
                count,
            ) is Some,
        ensures
            ({
                let after = self.lowered(ir);
                let end = self.nest(
                    ir,
                    ir.running(acts, self.op, 0, fuel),
                    lowers,
                    uppers,
                    steps,
                    ivs,
                    s,
                    count,
                )->0;
                let d = ivs.len() as int;
                if d < self.dims(ir) {
                    let done = after.ran(acts, self.loop_op(ir, self.dims(ir) - 1 - d), t, f);
                    done is Some && ir.agree(self.op, end, done->0)
                } else {
                    let done = self.ran_inside(ir, acts, ivs, t, f);
                    done is Some && ir.agree(self.op, end, done->0)
                }
            }),
        decreases count, 1nat,
    {
        let after = self.lowered(ir);
        let run = ir.running(acts, self.op, 0, fuel);
        let d = ivs.len() as int;
        ir.entry_exit_in_range(self.op, 0);
        if d < self.dims(ir) {
            let i = self.dims(ir) - 1 - d;
            let this = self.nest_loop(ir, i);
            self.nest_parts(ir, i);
            self.bounds_there(ir);
            let (f, c) = self.along_runs(
                ir,
                acts,
                lowers,
                uppers,
                steps,
                ivs,
                lowers[d],
                s,
                t,
                fuel,
                count,
            );
            let more = if f <= c { c } else { f };
            after.running_more(acts, this.op, 0, f, more);
            this.rounds_more(
                after,
                after.running(acts, this.op, 0, f),
                after.running(acts, this.op, 0, more),
                uppers[d],
                steps[d],
                lowers[d],
                Seq::empty(),
                t,
                c,
                more,
            );
            assert(ir.ops[self.op].operands.contains(self.lower_bounds(ir)[d]));
            assert(ir.ops[self.op].operands.contains(self.upper_bounds(ir)[d]));
            assert(ir.ops[self.op].operands.contains(self.steps(ir)[d]));
            assert((t.values)(self.lower_bounds(ir)[d]) == (s.values)(self.lower_bounds(ir)[d]));
            assert((t.values)(self.upper_bounds(ir)[d]) == (s.values)(self.upper_bounds(ir)[d]));
            assert((t.values)(self.steps(ir)[d]) == (s.values)(self.steps(ir)[d]));
            assert(s.read(self.lower_bounds(ir))[d] == lowers[d]);
            assert(s.read(self.upper_bounds(ir))[d] == uppers[d]);
            assert(s.read(self.steps(ir))[d] == steps[d]);
            let nothing: Seq<Value> = Seq::empty();
            assert(t.read(nothing) =~= Seq::<int>::empty());
            more
        } else {
            let start = s.with_args(self.entry(ir), ivs);
            let there = t.with_args(self.entry(ir), ivs);
            assert(run(start) is Some);
            assert(ir.agree(self.op, start, there));
            self.body_moved(ir, acts, self.entry(ir), start, there, fuel);
            fuel
        }
    }

    /// The rounds of a loop of the nest do what the rounds of the given loop over that
    /// dimension do. Returns the numbers of steps and of rounds that are enough.
    proof fn along_runs(
        self,
        ir: Ir,
        acts: spec_fn(OpId, Seq<int>, int) -> (Seq<int>, int),
        lowers: Seq<int>,
        uppers: Seq<int>,
        steps: Seq<int>,
        ivs: Seq<int>,
        iv: int,
        s: State,
        t: State,
        fuel: nat,
        count: nat,
    ) -> (enough: (nat, nat))
        requires
            self.ready(ir),
            self.steady(ir),
            ivs.len() < self.dims(ir),
            self.bounded_by(ir, lowers, uppers, steps, s),
            self.knows(ir, ivs, t),
            ir.agree(self.op, s, t),
            self.along(
                ir,
                ir.running(acts, self.op, 0, fuel),
                lowers,
                uppers,
                steps,
                ivs,
                iv,
                s,
                count,
            ) is Some,
        ensures
            ({
                let after = self.lowered(ir);
                let end = self.along(
                    ir,
                    ir.running(acts, self.op, 0, fuel),
                    lowers,
                    uppers,
                    steps,
                    ivs,
                    iv,
                    s,
                    count,
                )->0;
                let d = ivs.len() as int;
                let this = self.nest_loop(ir, self.dims(ir) - 1 - d);
                let done = this.rounds(
                    after,
                    after.running(acts, this.op, 0, enough.0),
                    uppers[d],
                    steps[d],
                    iv,
                    Seq::empty(),
                    t,
                    enough.1,
                );
                done is Some && ir.agree(self.op, end, done->0)
            }),
        decreases count, 0nat,
    {
        let after = self.lowered(ir);
        let run = ir.running(acts, self.op, 0, fuel);
        let d = ivs.len() as int;
        let i = self.dims(ir) - 1 - d;
        let this = self.nest_loop(ir, i);
        let none: Seq<int> = Seq::empty();
        self.nest_parts(ir, i);
        if iv >= uppers[d] {
            assert(ir.agree(self.op, s, t.with_results(this.op, none)));
            (0, 0)
        } else {
            let less = (count - 1) as nat;
            let more = ivs.push(iv);
            let end = self.nest(ir, run, lowers, uppers, steps, more, s, less)->0;
            let start = t.with_args(self.loop_entry(ir, i), seq![iv] + none);
            assert(ir.agree(self.op, s, start));
            assert(self.knows(ir, more, start)) by {
                assert forall|k: int| 0 <= k < more.len() implies (start.values)(
                    #[trigger] self.nest_variable(ir, self.dims(ir) - 1 - k),
                ) == more[k] by {
                    if k < d {
                        assert(self.loop_entry(ir, self.dims(ir) - 1 - k) != self.loop_entry(ir, i));
                        assert((t.values)(self.nest_variable(ir, self.dims(ir) - 1 - k))
                            == ivs[k]);
                    }
                }
            }
            let f = self.nest_runs(
                ir,
                acts,
                lowers,
                uppers,
                steps,
                more,
                s,
                start,
                fuel,
                less,
            );
            let w = self.round_runs(ir, acts, more, start, f);
            self.bounds_stay(ir, acts, lowers, uppers, steps, more, s, fuel, less);
            assert(self.knows(ir, ivs, w)) by {
                assert forall|k: int| 0 <= k < ivs.len() implies (w.values)(
                    #[trigger] self.nest_variable(ir, self.dims(ir) - 1 - k),
                ) == ivs[k] by {
                    let j = self.dims(ir) - 1 - k;
                    assert(more[k] == ivs[k]);
                    assert((start.values)(self.nest_variable(ir, j)) == more[k]);
                    self.round_leaves(ir, acts, i, j, start, f + 1);
                }
            }
            let (g, c) = self.along_runs(
                ir,
                acts,
                lowers,
                uppers,
                steps,
                ivs,
                State::sum(iv, steps[d]),
                end,
                w,
                fuel,
                less,
            );
            let most = if f + 1 <= g { g } else { f + 1 };
            after.running_more(acts, this.op, 0, f + 1, most);
            after.running_more(acts, this.op, 0, g, most);
            let longer = after.running(acts, this.op, 0, most);
            assert(after.running(acts, this.op, 0, f + 1)(start) == Some(w));
            assert(longer(start) == Some(w));
            this.rounds_more(
                after,
                after.running(acts, this.op, 0, g),
                longer,
                uppers[d],
                steps[d],
                State::sum(iv, steps[d]),
                none,
                w,
                c,
                c,
            );
            let nothing: Seq<Value> = Seq::empty();
            assert(w.read(nothing) =~= none);
            (most, c + 1)
        }
    }

    /// One round of a loop of the nest runs the next inner loop, or, in the innermost one, the
    /// given body, with the induction variables of all loops. Returns the state behind it.
    proof fn round_runs(
        self,
        ir: Ir,
        acts: spec_fn(OpId, Seq<int>, int) -> (Seq<int>, int),
        ivs: Seq<int>,
        start: State,
        f: nat,
    ) -> (w: State)
        requires
            self.ready(ir),
            0 < ivs.len() <= self.dims(ir),
            self.knows(ir, ivs, start),
            ({
                let after = self.lowered(ir);
                let n = self.dims(ir);
                if ivs.len() < n {
                    after.ran(acts, self.loop_op(ir, n - 1 - ivs.len()), start, f) is Some
                } else {
                    self.ran_inside(ir, acts, ivs, start, f) is Some
                }
            }),
        ensures
            ({
                let after = self.lowered(ir);
                let n = self.dims(ir);
                let i = n - ivs.len();
                &&& after.running(acts, self.loop_op(ir, i), 0, f + 1)(start) == Some(w)
                &&& if ivs.len() < n {
                    after.ran(acts, self.loop_op(ir, n - 1 - ivs.len()), start, f) == Some(w)
                } else {
                    self.ran_inside(ir, acts, ivs, start, f) == Some(w)
                }
            }),
    {
        let after = self.lowered(ir);
        let n = self.dims(ir);
        let i = n - ivs.len();
        self.nest_parts(ir, i);
        let entry = self.loop_entry(ir, i);
        let ops = after.blocks[entry].ops;
        let none: Seq<OpId> = Seq::empty();
        assert(after.ran_all(acts, none, start, f) == Some(start));
        if ivs.len() < n {
            let inner = self.loop_op(ir, i - 1);
            assert(ops.drop_last() =~= seq![inner]);
            assert(seq![inner].drop_last() =~= none);
            assert(after.ran_all(acts, seq![inner], start, f) == after.ran(acts, inner, start, f));
            assert(after.regions[self.loop_region(ir, i)].blocks.last() == entry);
            after.ran(acts, inner, start, f)->0
        } else {
            self.code_kept(ir);
            ir.entry_exit_in_range(self.op, 0);
            assert(ops.drop_last() =~= none);
            assert(entry != self.exit(ir));
            let handed = self.indices(ir);
            assert(start.read(handed) =~= ivs) by {
                assert forall|k: int| 0 <= k < handed.len() implies (start.values)(
                    #[trigger] handed[k],
                ) == ivs[k] by {
                    assert(handed[k] == self.nest_variable(ir, n - 1 - k));
                }
            }
            let there = start.with_args(self.entry(ir), ivs);
            assert(after.led(acts, self.jump(ir), start) == Some(
                Arrival { block: self.entry(ir), state: there },
            ));
            self.ran_inside(ir, acts, ivs, start, f)->0
        }
    }

    /// A round of an inner loop of the nest leaves the induction variables of the outer ones as
    /// they are.
    proof fn round_leaves(
        self,
        ir: Ir,
        acts: spec_fn(OpId, Seq<int>, int) -> (Seq<int>, int),
        i: int,
        j: int,
        start: State,
        f: nat,
    )
        requires
            self.ready(ir),
            0 <= i < j < self.dims(ir),
            self.lowered(ir).running(acts, self.loop_op(ir, i), 0, f)(start) is Some,
        ensures
            (self.lowered(ir).running(acts, self.loop_op(ir, i), 0, f)(start)->0.values)(
                self.nest_variable(ir, j),
            ) == (start.values)(self.nest_variable(ir, j)),
    {
        let after = self.lowered(ir);
        let o = self.loop_op(ir, i);
        let v = self.nest_variable(ir, j);
        assert forall|depth: nat| #[trigger] after.fixed_to(o, v, depth) by {
            self.inner_loops_fix(ir, i, j, depth);
        }
        after.running_leaves(acts, o, 0, f, v);
    }

    /// If control gets behind the loop, from the start of the block that holds it, then, from
    /// there, in a state that agrees, it gets behind the outermost loop of the nest, in a state
    /// that agrees.
    pub proof fn lowering_keeps_meaning(
        self,
        ir: Ir,
        acts: spec_fn(OpId, Seq<int>, int) -> (Seq<int>, int),
        s: State,
        t: State,
        fuel: nat,
    )
        requires
            ir.wf(),
            self.lowerable(ir),
            self.lowered(ir).wf(),
            ir.ops[self.op].kind is CfNDFor,
            ir.used_only_behind(self.op),
            self.steady(ir),
            ir.agree(self.op, s, t),
            ir.ran_through(acts, self.op, s, fuel) is Some,
        ensures
            exists|f: nat|
                {
                    let done = #[trigger] self.lowered(ir).ran_through(
                        acts,
                        self.loop_op(ir, self.dims(ir) - 1),
                        t,
                        f,
                    );
                    done is Some && ir.agree(
                        self.op,
                        ir.ran_through(acts, self.op, s, fuel)->0,
                        done->0,
                    )
                },
    {
        let after = self.lowered(ir);
        let n = self.dims(ir);
        let outer = self.loop_op(ir, n - 1);
        let holder = ir.holder(self.op);
        self.nest_parts(ir, n - 1);
        self.nest_parts(ir, 0);
        self.code_kept(ir);
        ir.others_stand(self.op);
        ir.position_in_range(self.op);
        ir.ran_up_to(acts, self.op, s, fuel);
        let p = ir.position(self.op);
        let first = ir.blocks[holder].ops.take(p);
        let x = ir.ran_all(acts, first, s, fuel)->0;
        ir.ran_all_alike(after, self.op, acts, first, s, t, fuel);
        let y = after.ran_all(acts, first, t, fuel)->0;
        let none: Seq<int> = Seq::empty();
        assert(self.knows(ir, none, y));
        let f = self.nest_runs(
            ir,
            acts,
            x.read(self.lower_bounds(ir)),
            x.read(self.upper_bounds(ir)),
            x.read(self.steps(ir)),
            none,
            x,
            y,
            fuel,
            fuel,
        );
        let most = if f <= fuel { fuel } else { f };
        after.ran_all_more(acts, first, t, fuel, most);
        after.ran_more(acts, outer, y, f, most);
        let ops = after.blocks[holder].ops;
        assert(ops == ir.blocks[holder].ops.update(p, outer));
        after.position_unique(holder, p);
        assert(ops[p] == outer);
        let now = ops.take(p + 1);
        assert(now.drop_last() =~= first);
        assert(now.last() == outer);
        assert(after.ran_through(acts, outer, t, most) == after.ran(acts, outer, y, most));
    }

    /// If one round of a loop of the nest comes to an end, so does the next inner loop, or, in the
    /// innermost one, the given body, with the induction variables of all loops.
    proof fn round_ran(
        self,
        ir: Ir,
        acts: spec_fn(OpId, Seq<int>, int) -> (Seq<int>, int),
        ivs: Seq<int>,
        start: State,
        fuel: nat,
    )
        requires
            self.ready(ir),
            0 < ivs.len() <= self.dims(ir),
            self.knows(ir, ivs, start),
            self.lowered(ir).running(acts, self.loop_op(ir, self.dims(ir) - ivs.len()), 0, fuel)(
                start,
            ) is Some,
        ensures
            fuel > 0,
            ({
                let after = self.lowered(ir);
                let n = self.dims(ir);
                let less = (fuel - 1) as nat;
                if ivs.len() < n {
                    after.ran(acts, self.loop_op(ir, n - 1 - ivs.len()), start, less) is Some
                } else {
                    self.ran_inside(ir, acts, ivs, start, less) is Some
                }
            }),
    {
        let after = self.lowered(ir);
        let n = self.dims(ir);
        let i = n - ivs.len();
        let less = (fuel - 1) as nat;
        self.nest_parts(ir, i);
        let entry = self.loop_entry(ir, i);
        let ops = after.blocks[entry].ops;
        let none: Seq<OpId> = Seq::empty();
        assert(after.ran_all(acts, none, start, less) == Some(start));
        if ivs.len() < n {
            let inner = self.loop_op(ir, i - 1);
            assert(ops.drop_last() =~= seq![inner]);
            assert(seq![inner].drop_last() =~= none);
            assert(after.ran_all(acts, seq![inner], start, less) == after.ran(
                acts,
                inner,
                start,
                less,
            ));
        } else {
            self.code_kept(ir);
            ir.entry_exit_in_range(self.op, 0);
            assert(ops.drop_last() =~= none);
            let handed = self.indices(ir);
            assert(start.read(handed) =~= ivs) by {
                assert forall|k: int| 0 <= k < handed.len() implies (start.values)(
                    #[trigger] handed[k],
                ) == ivs[k] by {
                    assert(handed[k] == self.nest_variable(ir, n - 1 - k));
                }
            }
            let there = start.with_args(self.entry(ir), ivs);
            assert(after.led(acts, self.jump(ir), start) == Some(
                Arrival { block: self.entry(ir), state: there },
            ));
        }
    }

    /// If the loops of the nest over the remaining dimensions come to an end, or, without any,
    /// the body, then so did the rest of the given loops, in a state that agrees, if the body may
    /// run as long. Returns the number of rounds that was enough.
    proof fn nest_ends(
        self,
        ir: Ir,
        acts: spec_fn(OpId, Seq<int>, int) -> (Seq<int>, int),
        lowers: Seq<int>,
        uppers: Seq<int>,
        steps: Seq<int>,
        ivs: Seq<int>,
        s: State,
        t: State,
        fuel: nat,
        most: nat,
    ) -> (count: nat)
        requires
            self.ready(ir),
            self.steady(ir),
            ir.branches_stay(),
            ir.ends_last(self.op),
            ivs.len() <= self.dims(ir),
            self.bounded_by(ir, lowers, uppers, steps, s),
            self.knows(ir, ivs, t),
            ir.agree(self.op, s, t),
            fuel <= most,
            ({
                let d = ivs.len() as int;
                if d < self.dims(ir) {
                    self.lowered(ir).ran(
                        acts,
                        self.loop_op(ir, self.dims(ir) - 1 - d),
                        t,
                        fuel,
                    ) is Some
                } else {
                    self.ran_inside(ir, acts, ivs, t, fuel) is Some
                }
            }),
        ensures
            ({
                let end = self.nest(
                    ir,
                    ir.running(acts, self.op, 0, most),
                    lowers,
                    uppers,
                    steps,
                    ivs,
                    s,
                    count,
                );
                let d = ivs.len() as int;
                let done = if d < self.dims(ir) {
                    self.lowered(ir).ran(acts, self.loop_op(ir, self.dims(ir) - 1 - d), t, fuel)
                } else {
                    self.ran_inside(ir, acts, ivs, t, fuel)
                };
                end is Some && ir.agree(self.op, end->0, done->0)
            }),
        decreases fuel, 1nat, 0nat,
    {
        let after = self.lowered(ir);
        let run = ir.running(acts, self.op, 0, most);
        let d = ivs.len() as int;
        ir.entry_exit_in_range(self.op, 0);
        if d < self.dims(ir) {
            let i = self.dims(ir) - 1 - d;
            self.nest_parts(ir, i);
            self.bounds_there(ir);
            assert(ir.ops[self.op].operands.contains(self.lower_bounds(ir)[d]));
            assert(ir.ops[self.op].operands.contains(self.upper_bounds(ir)[d]));
            assert(ir.ops[self.op].operands.contains(self.steps(ir)[d]));
            assert((t.values)(self.lower_bounds(ir)[d]) == (s.values)(self.lower_bounds(ir)[d]));
            assert((t.values)(self.upper_bounds(ir)[d]) == (s.values)(self.upper_bounds(ir)[d]));
            assert((t.values)(self.steps(ir)[d]) == (s.values)(self.steps(ir)[d]));
            assert(s.read(self.lower_bounds(ir))[d] == lowers[d]);
            assert(s.read(self.upper_bounds(ir))[d] == uppers[d]);
            assert(s.read(self.steps(ir))[d] == steps[d]);
            let nothing: Seq<Value> = Seq::empty();
            assert(t.read(nothing) =~= Seq::<int>::empty());
            self.along_ends(
                ir,
                acts,
                lowers,
                uppers,
                steps,
                ivs,
                lowers[d],
                s,
                t,
                fuel,
                fuel,
                most,
            )
        } else {
            let start = s.with_args(self.entry(ir), ivs);
            let there = t.with_args(self.entry(ir), ivs);
            let now = self.loop_region(ir, 0);
            assert(ir.agree(self.op, start, there));
            self.code_kept(ir);
            self.nest_parts(ir, 0);
            let shape = ir.blocks[self.exit(ir)].ops.drop_last();
            assert(shape.push(self.loop_yield(ir, 0)).take(shape.len() as int) =~= shape);
            assert(ir.moved_region(after, self.body(ir), now));
            ir.body_back(after, self.op, acts, 0, now, self.entry(ir), start, there, fuel);
            self.body_moved(ir, acts, self.entry(ir), start, there, fuel);
            ir.running_more(acts, self.op, 0, fuel, most);
            assert(ir.running(acts, self.op, 0, fuel)(start) is Some);
            assert(run(start) is Some);
            0
        }
    }

    /// If the rounds of a loop of the nest come to an end, so did the rounds of the given loop
    /// over that dimension, in a state that agrees. Returns the number of rounds that was enough.
    proof fn along_ends(
        self,
        ir: Ir,
        acts: spec_fn(OpId, Seq<int>, int) -> (Seq<int>, int),
        lowers: Seq<int>,
        uppers: Seq<int>,
        steps: Seq<int>,
        ivs: Seq<int>,
        iv: int,
        s: State,
        t: State,
        fuel: nat,
        rounds: nat,
        most: nat,
    ) -> (count: nat)
        requires
            self.ready(ir),
            self.steady(ir),
            ir.branches_stay(),
            ir.ends_last(self.op),
            ivs.len() < self.dims(ir),
            self.bounded_by(ir, lowers, uppers, steps, s),
            self.knows(ir, ivs, t),
            ir.agree(self.op, s, t),
            fuel <= most,
            ({
                let after = self.lowered(ir);
                let d = ivs.len() as int;
                let this = self.nest_loop(ir, self.dims(ir) - 1 - d);
                this.rounds(
                    after,
                    after.running(acts, this.op, 0, fuel),
                    uppers[d],
                    steps[d],
                    iv,
                    Seq::empty(),
                    t,
                    rounds,
                ) is Some
            }),
        ensures
            ({
                let after = self.lowered(ir);
                let d = ivs.len() as int;
                let this = self.nest_loop(ir, self.dims(ir) - 1 - d);
                let end = self.along(
                    ir,
                    ir.running(acts, self.op, 0, most),
                    lowers,
                    uppers,
                    steps,
                    ivs,
                    iv,
                    s,
                    count,
                );
                let done = this.rounds(
                    after,
                    after.running(acts, this.op, 0, fuel),
                    uppers[d],
                    steps[d],
                    iv,
                    Seq::empty(),
                    t,
                    rounds,
                );
                end is Some && ir.agree(self.op, end->0, done->0)
            }),
        decreases fuel, 0nat, rounds,
    {
        let after = self.lowered(ir);
        let run = ir.running(acts, self.op, 0, most);
        let d = ivs.len() as int;
        let i = self.dims(ir) - 1 - d;
        let this = self.nest_loop(ir, i);
        let none: Seq<int> = Seq::empty();
        self.nest_parts(ir, i);
        if iv >= uppers[d] {
            assert(ir.agree(self.op, s, t.with_results(this.op, none)));
            0
        } else {
            let more = ivs.push(iv);
            let start = t.with_args(self.loop_entry(ir, i), seq![iv] + none);
            assert(after.running(acts, this.op, 0, fuel)(start) is Some);
            assert(ir.agree(self.op, s, start));
            assert(self.knows(ir, more, start)) by {
                assert forall|k: int| 0 <= k < more.len() implies (start.values)(
                    #[trigger] self.nest_variable(ir, self.dims(ir) - 1 - k),
                ) == more[k] by {
                    if k < d {
                        assert(self.loop_entry(ir, self.dims(ir) - 1 - k) != self.loop_entry(ir, i));
                        assert((t.values)(self.nest_variable(ir, self.dims(ir) - 1 - k))
                            == ivs[k]);
                    }
                }
            }
            self.round_ran(ir, acts, more, start, fuel);
            let less = (fuel - 1) as nat;
            let a = self.nest_ends(ir, acts, lowers, uppers, steps, more, s, start, less, most);
            let end = self.nest(ir, run, lowers, uppers, steps, more, s, a)->0;
            let w = self.round_runs(ir, acts, more, start, less);
            self.bounds_stay(ir, acts, lowers, uppers, steps, more, s, most, a);
            assert(self.knows(ir, ivs, w)) by {
                assert forall|k: int| 0 <= k < ivs.len() implies (w.values)(
                    #[trigger] self.nest_variable(ir, self.dims(ir) - 1 - k),
                ) == ivs[k] by {
                    let j = self.dims(ir) - 1 - k;
                    assert(more[k] == ivs[k]);
                    assert((start.values)(self.nest_variable(ir, j)) == more[k]);
                    self.round_leaves(ir, acts, i, j, start, fuel);
                }
            }
            let next = State::sum(iv, steps[d]);
            let nothing: Seq<Value> = Seq::empty();
            assert(w.read(nothing) =~= none);
            let c = self.along_ends(
                ir,
                acts,
                lowers,
                uppers,
                steps,
                ivs,
                next,
                end,
                w,
                fuel,
                (rounds - 1) as nat,
                most,
            );
            let enough = if a <= c { c } else { a };
            self.nest_more(ir, run, run, lowers, uppers, steps, more, s, a, enough);
            self.along_more(ir, run, run, lowers, uppers, steps, ivs, next, end, c, enough);
            enough + 1
        }
    }

    /// If what precedes the loop and the outermost loop of the nest come to an end, from the start
    /// of the block that holds these, then, from there, in a state that agrees, control got behind
    /// the given loop.
    pub(crate) proof fn lowering_adds_nothing(
        self,
        ir: Ir,
        acts: spec_fn(OpId, Seq<int>, int) -> (Seq<int>, int),
        s: State,
        t: State,
        fuel: nat,
    )
        requires
            ir.wf(),
            self.lowerable(ir),
            self.lowered(ir).wf(),
            ir.ops[self.op].kind is CfNDFor,
            ir.used_only_behind(self.op),
            self.steady(ir),
            ir.branches_stay(),
            ir.ends_last(self.op),
            ir.agree(self.op, s, t),
            self.lowered(ir).ran_all(
                acts,
                ir.blocks[ir.holder(self.op)].ops.take(ir.position(self.op)).push(
                    self.loop_op(ir, self.dims(ir) - 1),
                ),
                t,
                fuel,
            ) is Some,
        ensures
            exists|f: nat| #[trigger] ir.ran_through(acts, self.op, s, f) is Some,
    {
        let after = self.lowered(ir);
        let n = self.dims(ir);
        let outer = self.loop_op(ir, n - 1);
        self.code_kept(ir);
        ir.others_stand(self.op);
        ir.position_in_range(self.op);
        let first = ir.blocks[ir.holder(self.op)].ops.take(ir.position(self.op));
        assert(first.push(outer).drop_last() =~= first);
        ir.ran_all_alike(after, self.op, acts, first, s, t, fuel);
        let x = ir.ran_all(acts, first, s, fuel)->0;
        let y = after.ran_all(acts, first, t, fuel)->0;
        let none: Seq<int> = Seq::empty();
        assert(self.knows(ir, none, y));
        let lowers = x.read(self.lower_bounds(ir));
        let uppers = x.read(self.upper_bounds(ir));
        let steps = x.read(self.steps(ir));
        let c = self.nest_ends(ir, acts, lowers, uppers, steps, none, x, y, fuel, fuel);
        let most = if c <= fuel { fuel } else { c };
        ir.running_more(acts, self.op, 0, fuel, most);
        self.nest_more(
            ir,
            ir.running(acts, self.op, 0, fuel),
            ir.running(acts, self.op, 0, most),
            lowers,
            uppers,
            steps,
            none,
            x,
            c,
            most,
        );
        ir.ran_all_more(acts, first, s, fuel, most);
        ir.ran_through_to(acts, self.op, s, most);
    }
}

} // verus!
