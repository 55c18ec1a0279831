//! The conversion, step by step, to its end.

use crate::cf::ops::NDForOp;
use crate::cf::semantics::{Arrival, State};
use crate::cf::to_llvm::CFToLLVM;
use crate::cf::verify::VerifyErr;
use crate::ir::model::Ir;
use crate::ir::types::{BlockId, OpId, Value};
use vstd::prelude::*;

verus! {

/// A step of the conversion.
pub enum ConversionStep {
    /// An operation is lowered.
    Lower(OpId),
    /// The type of an argument of a block is converted.
    Retype(BlockId, int),
}

impl Ir {
    /// Does a run end where another one ends: at the same operation, which is handed the same
    /// numbers, with all else the same?
    pub open spec fn ends_alike(self, later: Ir, end: Arrival, now: Option<Arrival>) -> bool {
        let last = self.blocks[end.block].ops.last();
        &&& now is Some
        &&& now->0.state.world == end.state.world
        &&& later.blocks[now->0.block].ops.last() == last
        &&& later.ops[last].kind == self.ops[last].kind
        &&& now->0.state.read(later.ops[last].operands) == end.state.read(self.ops[last].operands)
    }
}

impl CFToLLVM {
    /// The representation after a step.
    pub open spec fn stepped(ir: Ir, step: ConversionStep) -> Ir {
        match step {
            ConversionStep::Lower(op) => CFToLLVM::lowered(ir, op),
            ConversionStep::Retype(block, idx) => ir.argument_converted(block, idx),
        }
    }

    /// What is left to be lowered after a step.
    pub open spec fn work_left(ir: Ir, work: Set<OpId>, step: ConversionStep) -> Set<OpId> {
        match step {
            ConversionStep::Lower(op) => work.remove(op).union(CFToLLVM::left_to_convert(ir, op)),
            ConversionStep::Retype(_, _) => work,
        }
    }

    /// Is the operation that is lowered one of those that are to be, or the argument that is
    /// retyped there? And are there identifiers enough?
    pub open spec fn step_fits(ir: Ir, work: Set<OpId>, step: ConversionStep) -> bool {
        match step {
            ConversionStep::Lower(op) => work.contains(op) && CFToLLVM::lowered(ir, op).wf(),
            ConversionStep::Retype(block, idx) => ir.blocks.contains_key(block) && 0 <= idx
                < ir.blocks[block].args.len(),
        }
    }

    /// The representation after the steps, one after the other.
    pub open spec fn converted(ir: Ir, steps: Seq<ConversionStep>) -> Ir
        decreases steps.len(),
    {
        if steps.len() == 0 {
            ir
        } else {
            CFToLLVM::converted(CFToLLVM::stepped(ir, steps[0]), steps.skip(1))
        }
    }

    /// What is left to be lowered after the steps.
    pub open spec fn work_after(ir: Ir, work: Set<OpId>, steps: Seq<ConversionStep>) -> Set<OpId>
        decreases steps.len(),
    {
        if steps.len() == 0 {
            work
        } else {
            CFToLLVM::work_after(
                CFToLLVM::stepped(ir, steps[0]),
                CFToLLVM::work_left(ir, work, steps[0]),
                steps.skip(1),
            )
        }
    }

    /// Does each of the steps fit when its turn comes?
    pub open spec fn goes_through(ir: Ir, work: Set<OpId>, steps: Seq<ConversionStep>) -> bool
        decreases steps.len(),
    {
        steps.len() > 0 ==> {
            &&& CFToLLVM::step_fits(ir, work, steps[0])
            &&& CFToLLVM::goes_through(
                CFToLLVM::stepped(ir, steps[0]),
                CFToLLVM::work_left(ir, work, steps[0]),
                steps.skip(1),
            )
        }
    }

    /// Are all operations that are to be lowered in order, and do branches stay in their regions?
    pub open spec fn all_in_order(ir: Ir, work: Set<OpId>) -> bool {
        &&& ir.branches_stay()
        &&& forall|o: OpId| #[trigger] work.contains(o) ==> CFToLLVM::in_order(ir, o)
    }

    /// Is the operation neither to be lowered nor directly in one that is?
    pub open spec fn beyond(ir: Ir, work: Set<OpId>, o: OpId) -> bool {
        &&& ir.ops.contains_key(o)
        &&& !work.contains(o)
        &&& ir.ops[o].parent is Some ==> !work.contains(
            ir.regions[ir.blocks[ir.holder(o)].parent].parent,
        )
    }

    /// The state after a step in which a run starts: the arguments of the block that stand for the
    /// results of an operation that is lowered are what these were.
    pub open spec fn carried(ir: Ir, step: ConversionStep, s: State) -> State {
        match step {
            ConversionStep::Lower(op) => {
                let way = CFToLLVM::replacement(ir, op);
                State {
                    values: |v: Value|
                        match v {
                            Value::BlockArgument { block, idx } if block == way.block && way.first
                                <= idx < way.first + ir.ops[op].results.len() => (s.values)(
                                Value::OpResult { op, idx: (idx - way.first) as usize },
                            ),
                            _ => (s.values)(v),
                        },
                    ..s
                }
            },
            ConversionStep::Retype(_, _) => s,
        }
    }

    /// The state after all the steps in which a run starts.
    pub open spec fn carried_all(ir: Ir, steps: Seq<ConversionStep>, s: State) -> State
        decreases steps.len(),
    {
        if steps.len() == 0 {
            s
        } else {
            CFToLLVM::carried_all(
                CFToLLVM::stepped(ir, steps[0]),
                steps.skip(1),
                CFToLLVM::carried(ir, steps[0], s),
            )
        }
    }

    /// After a lowering, a run starts in a state that agrees: all but the results of the operation
    /// is what it was.
    proof fn carried_agrees(ir: Ir, op: OpId, s: State)
        requires
            ir.wf(),
            CFToLLVM::in_order(ir, op),
            CFToLLVM::lowered(ir, op).wf(),
            ir.branches_stay(),
        ensures
            ({
                let t = CFToLLVM::carried(ir, ConversionStep::Lower(op), s);
                &&& ir.matches_up(CFToLLVM::replacement(ir, op), s, t)
                &&& t.world == s.world
                &&& forall|v: Value|
                    #![trigger (t.values)(v)]
                    ir.has_value(v) && !Ir::is_result(v, op) ==> (t.values)(v) == (s.values)(v)
            }),
    {
        let way = CFToLLVM::replacement(ir, op);
        let t = CFToLLVM::carried(ir, ConversionStep::Lower(op), s);
        CFToLLVM::reshapes(ir, op);
        if ir.ops[op].kind is CfFor {
            assert(way.first + ir.ops[op].results.len() <= u32::MAX);
        }
        assert forall|v: Value| #[trigger] ir.has_value(v) implies (s.values)(v) == (t.values)(
            Ir::substituted(v, way.op, way.block, way.first),
        ) by {}
    }

    /// A step leaves the operations that are left to be lowered in order.
    pub(crate) proof fn step_keeps_order(ir: Ir, work: Set<OpId>, step: ConversionStep)
        requires
            ir.wf(),
            CFToLLVM::all_in_order(ir, work),
            CFToLLVM::step_fits(ir, work, step),
        ensures
            CFToLLVM::stepped(ir, step).wf(),
            CFToLLVM::all_in_order(
                CFToLLVM::stepped(ir, step),
                CFToLLVM::work_left(ir, work, step),
            ),
    {
        let after = CFToLLVM::stepped(ir, step);
        let left = CFToLLVM::work_left(ir, work, step);
        match step {
            ConversionStep::Lower(op) => {
                assert(CFToLLVM::in_order(ir, op));
                CFToLLVM::reshapes(ir, op);
                ir.still_stays(after, CFToLLVM::replacement(ir, op));
                assert forall|o: OpId| #[trigger] left.contains(o) implies CFToLLVM::in_order(
                    after,
                    o,
                ) by {
                    if CFToLLVM::left_to_convert(ir, op).contains(o) {
                        CFToLLVM::lowering_leaves_order(ir, op, o);
                    } else {
                        assert(work.contains(o));
                        CFToLLVM::lowering_keeps_order(ir, op, o);
                    }
                }
            },
            ConversionStep::Retype(block, idx) => {
                ir.argument_converted_keeps(block, idx);
                ir.frame_stays(after);
                assert forall|o: OpId| #[trigger] left.contains(o) implies CFToLLVM::in_order(
                    after,
                    o,
                ) by {
                    CFToLLVM::retyping_keeps_order(ir, block, idx, o);
                }
            },
        }
    }

    /// The loops that a lowering leaves are new.
    pub(crate) proof fn left_is_new(ir: Ir, op: OpId, o: OpId)
        requires
            ir.wf(),
            CFToLLVM::in_order(ir, op),
            CFToLLVM::lowered(ir, op).wf(),
            CFToLLVM::left_to_convert(ir, op).contains(o),
        ensures
            !ir.ops.contains_key(o),
    {
        let this = NDForOp { op };
        this.bounded(ir);
        assert(this.lowered(ir).next_op <= usize::MAX) by {
            reveal(Ir::wf);
        }
    }

    /// What is neither to be lowered nor directly in what is stays so.
    proof fn lowering_keeps_beyond(ir: Ir, work: Set<OpId>, op: OpId, o: OpId)
        requires
            ir.wf(),
            CFToLLVM::all_in_order(ir, work),
            work.contains(op),
            CFToLLVM::lowered(ir, op).wf(),
            CFToLLVM::beyond(ir, work, o),
        ensures
            ir.outside(o, op),
            CFToLLVM::beyond(
                CFToLLVM::lowered(ir, op),
                CFToLLVM::work_left(ir, work, ConversionStep::Lower(op)),
                o,
            ),
    {
        let after = CFToLLVM::lowered(ir, op);
        let way = CFToLLVM::replacement(ir, op);
        let left = CFToLLVM::work_left(ir, work, ConversionStep::Lower(op));
        assert(CFToLLVM::in_order(ir, op));
        CFToLLVM::reshapes(ir, op);
        ir.ordered();
        assert(ir.outside(o, op));
        assert(ir.same_but_renamed(after, way, o));
        if left.contains(o) {
            CFToLLVM::left_is_new(ir, op, o);
        }
        if after.ops[o].parent is Some {
            let b = after.holder(o);
            after.position_in_range(o);
            let k = after.position(o);
            ir.origin(after, way, b, k);
            assert(ir.placed(o));
            let r = ir.blocks[ir.holder(o)].parent;
            assert(after.blocks[b].parent == r);
            let p = ir.regions[r].parent;
            assert(p != op);
            assert(ir.ops.contains_key(p)) by {
                reveal(Ir::wf);
            }
            let j = ir.ops[p].regions.index_of(r);
            assert(ir.ops[p].regions[j] == r);
            if ir.ends(p, op) {
                CFToLLVM::ends_with_yield(ir, op, p);
            }
            assert(ir.kept(p, op));
            assert(ir.same_but_renamed(after, way, p));
            after.region_there(p, j);
            if left.contains(p) {
                CFToLLVM::left_is_new(ir, op, p);
            }
        }
    }

    /// An operation of control flow that is where it belongs, and with which the check finds
    /// nothing wrong, is in order.
    pub proof fn checked_in_order(ir: Ir, op: OpId)
        requires
            ir.wf(),
            ir.placed(op),
            CFToLLVM::is_control_flow(ir.ops[op].kind),
            VerifyErr::checkable(ir, op),
            VerifyErr::finding(ir, op) is None,
            CFToLLVM::laid_out(ir, op),
            CFToLLVM::outside_itself(ir, op),
            CFToLLVM::ends_checked(ir, op),
            CFToLLVM::well_used(ir, op),
        ensures
            CFToLLVM::in_order(ir, op),
    {
        CFToLLVM::checked_can_be_lowered(ir, op);
        CFToLLVM::checked_types_agree(ir, op);
        CFToLLVM::checked_ends_last(ir, op);
    }

    /// Whatever steps have been taken, the operations that are left to be lowered are in order, so
    /// that any of them can be lowered next.
    pub proof fn conversion_keeps_order(ir: Ir, work: Set<OpId>, steps: Seq<ConversionStep>)
        requires
            ir.wf(),
            CFToLLVM::all_in_order(ir, work),
            CFToLLVM::goes_through(ir, work, steps),
        ensures
            CFToLLVM::converted(ir, steps).wf(),
            CFToLLVM::all_in_order(
                CFToLLVM::converted(ir, steps),
                CFToLLVM::work_after(ir, work, steps),
            ),
        decreases steps.len(),
    {
        if steps.len() > 0 {
            CFToLLVM::step_keeps_order(ir, work, steps[0]);
            CFToLLVM::conversion_keeps_order(
                CFToLLVM::stepped(ir, steps[0]),
                CFToLLVM::work_left(ir, work, steps[0]),
                steps.skip(1),
            );
        }
    }

    /// Are all operations of control flow among those that are to be lowered?
    pub open spec fn work_is_all(ir: Ir, work: Set<OpId>) -> bool {
        forall|o: OpId| #[trigger]
            ir.ops.contains_key(o) && CFToLLVM::is_control_flow(ir.ops[o].kind) ==> work.contains(o)
    }

    /// If all operations of control flow are to be lowered, then, whatever steps have been taken,
    /// all that are there are left to be. So, once none is left, none is there.
    pub proof fn conversion_misses_nothing(ir: Ir, work: Set<OpId>, steps: Seq<ConversionStep>)
        requires
            ir.wf(),
            CFToLLVM::all_in_order(ir, work),
            CFToLLVM::goes_through(ir, work, steps),
            CFToLLVM::work_is_all(ir, work),
        ensures
            CFToLLVM::work_is_all(
                CFToLLVM::converted(ir, steps),
                CFToLLVM::work_after(ir, work, steps),
            ),
        decreases steps.len(),
    {
        if steps.len() > 0 {
            let after = CFToLLVM::stepped(ir, steps[0]);
            let left = CFToLLVM::work_left(ir, work, steps[0]);
            CFToLLVM::step_keeps_order(ir, work, steps[0]);
            if let ConversionStep::Lower(op) = steps[0] {
                let way = CFToLLVM::replacement(ir, op);
                assert(CFToLLVM::in_order(ir, op));
                CFToLLVM::reshapes(ir, op);
                CFToLLVM::lowering_leaves_less(ir, op);
                assert forall|o: OpId| #[trigger]
                    after.ops.contains_key(o) && CFToLLVM::is_control_flow(
                        after.ops[o].kind,
                    ) implies left.contains(o) by {
                    assert(CFToLLVM::to_convert(after).contains(o));
                    if !CFToLLVM::left_to_convert(ir, op).contains(o) {
                        assert(CFToLLVM::to_convert(ir).contains(o) && o != op);
                        if ir.ends(o, op) {
                            CFToLLVM::ends_with_yield(ir, op, o);
                        }
                        assert(ir.kept(o, op));
                        assert(ir.same_but_renamed(after, way, o));
                    }
                }
            }
            CFToLLVM::conversion_misses_nothing(after, left, steps.skip(1));
        }
    }

    /// If all branches forward to their targets what those take, they do so whatever steps have
    /// been taken.
    pub proof fn conversion_keeps_forwarding(
        ir: Ir,
        work: Set<OpId>,
        steps: Seq<ConversionStep>,
    )
        requires
            ir.wf(),
            CFToLLVM::all_in_order(ir, work),
            CFToLLVM::goes_through(ir, work, steps),
            ir.all_forward_well(),
        ensures
            CFToLLVM::converted(ir, steps).all_forward_well(),
        decreases steps.len(),
    {
        if steps.len() > 0 {
            match steps[0] {
                ConversionStep::Lower(op) => {
                    assert(CFToLLVM::in_order(ir, op));
                    CFToLLVM::lowering_keeps_forwarding(ir, op);
                },
                ConversionStep::Retype(block, idx) => {
                    ir.retyping_keeps_forwarding(block, idx);
                },
            }
            CFToLLVM::step_keeps_order(ir, work, steps[0]);
            CFToLLVM::conversion_keeps_forwarding(
                CFToLLVM::stepped(ir, steps[0]),
                CFToLLVM::work_left(ir, work, steps[0]),
                steps.skip(1),
            );
        }
    }

    /// If all conditions are signless 1-bit integers, they are so whatever steps have been taken.
    pub proof fn conversion_keeps_conditions(
        ir: Ir,
        work: Set<OpId>,
        steps: Seq<ConversionStep>,
    )
        requires
            ir.wf(),
            CFToLLVM::all_in_order(ir, work),
            CFToLLVM::goes_through(ir, work, steps),
            ir.all_decide_on_bits(),
        ensures
            CFToLLVM::converted(ir, steps).all_decide_on_bits(),
        decreases steps.len(),
    {
        if steps.len() > 0 {
            match steps[0] {
                ConversionStep::Lower(op) => {
                    assert(CFToLLVM::in_order(ir, op));
                    CFToLLVM::lowering_keeps_conditions(ir, op);
                },
                ConversionStep::Retype(block, idx) => {
                    ir.retyping_keeps_conditions(block, idx);
                },
            }
            CFToLLVM::step_keeps_order(ir, work, steps[0]);
            CFToLLVM::conversion_keeps_conditions(
                CFToLLVM::stepped(ir, steps[0]),
                CFToLLVM::work_left(ir, work, steps[0]),
                steps.skip(1),
            );
        }
    }

    /// After a step, a run starts in a state in which the arguments of the blocks that were there
    /// are what they were. These are still there.
    proof fn step_starts_alike(ir: Ir, work: Set<OpId>, step: ConversionStep, s: State)
        requires
            ir.wf(),
            CFToLLVM::all_in_order(ir, work),
            CFToLLVM::step_fits(ir, work, step),
        ensures
            CFToLLVM::carried(ir, step, s).world == s.world,
            forall|v: Value| #[trigger]
                ir.has_value(v) && v is BlockArgument ==> CFToLLVM::stepped(ir, step).has_value(v)
                    && (CFToLLVM::carried(ir, step, s).values)(v) == (s.values)(v),
    {
        match step {
            ConversionStep::Lower(op) => {
                let after = CFToLLVM::lowered(ir, op);
                let way = CFToLLVM::replacement(ir, op);
                assert(CFToLLVM::in_order(ir, op));
                CFToLLVM::carried_agrees(ir, op, s);
                CFToLLVM::reshapes(ir, op);
                assert forall|v: Value| #[trigger]
                    ir.has_value(v) && v is BlockArgument implies after.has_value(v) && (
                CFToLLVM::carried(ir, step, s).values)(v) == (s.values)(v) by {
                    assert(ir.block_reshaped(after, way, v->block));
                    assert(!Ir::is_result(v, op));
                }
            },
            ConversionStep::Retype(block, idx) => {
                ir.argument_converted_keeps(block, idx);
            },
        }
    }

    /// After the conversion, a run starts in a state in which the arguments of the blocks that were
    /// there are what they were, and so is all else that is no value.
    pub proof fn conversion_starts_alike(
        ir: Ir,
        work: Set<OpId>,
        steps: Seq<ConversionStep>,
        s: State,
    )
        requires
            ir.wf(),
            CFToLLVM::all_in_order(ir, work),
            CFToLLVM::goes_through(ir, work, steps),
        ensures
            CFToLLVM::carried_all(ir, steps, s).world == s.world,
            forall|v: Value| #[trigger]
                ir.has_value(v) && v is BlockArgument ==> (CFToLLVM::carried_all(
                    ir,
                    steps,
                    s,
                ).values)(v) == (s.values)(v),
        decreases steps.len(),
    {
        if steps.len() > 0 {
            let after = CFToLLVM::stepped(ir, steps[0]);
            let left = CFToLLVM::work_left(ir, work, steps[0]);
            let t = CFToLLVM::carried(ir, steps[0], s);
            CFToLLVM::step_starts_alike(ir, work, steps[0], s);
            CFToLLVM::step_keeps_order(ir, work, steps[0]);
            CFToLLVM::conversion_starts_alike(after, left, steps.skip(1), t);
            assert forall|v: Value| #[trigger]
                ir.has_value(v) && v is BlockArgument implies (CFToLLVM::carried_all(
                ir,
                steps,
                s,
            ).values)(v) == (s.values)(v) by {
                assert(after.has_value(v));
            }
        }
    }

    /// After a step, the run of a region of an operation that is neither to be lowered nor directly
    /// in one that is comes to an end if and only if it did before: at the same operation, which
    /// is handed the same numbers. Returns a number of steps that is enough, from one that was.
    proof fn step_keeps_meaning(
        ir: Ir,
        work: Set<OpId>,
        step: ConversionStep,
        acts: spec_fn(OpId, Seq<int>, int) -> (Seq<int>, int),
        o: OpId,
        i: int,
        s: State,
        fuel: nat,
    ) -> (enough: (nat, nat))
        requires
            ir.wf(),
            CFToLLVM::all_in_order(ir, work),
            CFToLLVM::step_fits(ir, work, step),
            CFToLLVM::beyond(ir, work, o),
            ir.has_body(o, i),
        ensures
            ({
                let after = CFToLLVM::stepped(ir, step);
                let t = CFToLLVM::carried(ir, step, s);
                let r = ir.ops[o].regions[i];
                let end = ir.ran_region(acts, r, ir.entry(o, i), s, fuel);
                let now = after.ran_region(acts, r, after.entry(o, i), t, fuel);
                let was = ir.ran_region(acts, r, ir.entry(o, i), s, enough.1);
                &&& CFToLLVM::beyond(after, CFToLLVM::work_left(ir, work, step), o)
                &&& after.has_body(o, i)
                &&& after.ops[o].regions == ir.ops[o].regions
                &&& end is Some ==> ir.ends_alike(
                    after,
                    end->0,
                    after.ran_region(acts, r, after.entry(o, i), t, enough.0),
                )
                &&& now is Some ==> was is Some && ir.ends_alike(after, was->0, now)
            }),
    {
        let after = CFToLLVM::stepped(ir, step);
        let t = CFToLLVM::carried(ir, step, s);
        let r = ir.ops[o].regions[i];
        let end = ir.ran_region(acts, r, ir.entry(o, i), s, fuel);
        let now = after.ran_region(acts, r, after.entry(o, i), t, fuel);
        match step {
            ConversionStep::Lower(op) => {
                let way = CFToLLVM::replacement(ir, op);
                assert(CFToLLVM::in_order(ir, op));
                CFToLLVM::carried_agrees(ir, op, s);
                CFToLLVM::lowering_keeps_beyond(ir, work, op, o);
                CFToLLVM::reshapes(ir, op);
                ir.bodies_match(after, way, o, i);
                assert(ir.same_but_renamed(after, way, o));
                if end is Some {
                    CFToLLVM::lowering_keeps_meaning(ir, op, acts, o, i, s, t, fuel);
                }
                let f = choose|f: nat|
                    ir.same_end(
                        after,
                        way,
                        end->0,
                        #[trigger] after.ran_region(
                            acts,
                            ir.ops[o].regions[i],
                            after.entry(o, i),
                            t,
                            f,
                        ),
                    );
                if now is Some {
                    CFToLLVM::lowering_adds_nothing(ir, op, acts, o, i, s, t, fuel);
                }
                let g = choose|g: nat|
                    {
                        let was = #[trigger] ir.ran_region(
                            acts,
                            ir.ops[o].regions[i],
                            ir.entry(o, i),
                            s,
                            g,
                        );
                        was is Some && ir.same_end(after, way, was->0, now)
                    };
                (f, g)
            },
            ConversionStep::Retype(block, idx) => {
                ir.argument_converted_keeps(block, idx);
                ir.code_region(after, acts, r, ir.entry(o, i), s, fuel);
                assert(after.entry(o, i) == ir.entry(o, i));
                if end is Some {
                    assert(after.blocks[end->0.block].ops == ir.blocks[end->0.block].ops);
                }
                (fuel, fuel)
            },
        }
    }

    /// The conversion keeps what the program means. Take a region of an operation that is neither
    /// lowered nor directly in one that is, such as the body of a function. If a run of that
    /// region, from its start, comes to an end, then it does so too whatever steps have been
    /// taken, in whatever order: at the same operation, which is handed the same numbers.
    pub proof fn conversion_keeps_meaning(
        ir: Ir,
        work: Set<OpId>,
        steps: Seq<ConversionStep>,
        acts: spec_fn(OpId, Seq<int>, int) -> (Seq<int>, int),
        o: OpId,
        i: int,
        s: State,
        fuel: nat,
    )
        requires
            ir.wf(),
            CFToLLVM::all_in_order(ir, work),
            CFToLLVM::goes_through(ir, work, steps),
            CFToLLVM::beyond(ir, work, o),
            ir.has_body(o, i),
            ir.ran_region(acts, ir.ops[o].regions[i], ir.entry(o, i), s, fuel) is Some,
        ensures
            exists|f: nat|
                ir.ends_alike(
                    CFToLLVM::converted(ir, steps),
                    ir.ran_region(acts, ir.ops[o].regions[i], ir.entry(o, i), s, fuel)->0,
                    #[trigger] CFToLLVM::converted(ir, steps).ran_region(
                        acts,
                        ir.ops[o].regions[i],
                        CFToLLVM::converted(ir, steps).entry(o, i),
                        CFToLLVM::carried_all(ir, steps, s),
                        f,
                    ),
                ),
        decreases steps.len(),
    {
        let done = CFToLLVM::converted(ir, steps);
        let u = CFToLLVM::carried_all(ir, steps, s);
        let r = ir.ops[o].regions[i];
        let end = ir.ran_region(acts, r, ir.entry(o, i), s, fuel)->0;
        let g = if steps.len() == 0 {
            fuel
        } else {
            let after = CFToLLVM::stepped(ir, steps[0]);
            let left = CFToLLVM::work_left(ir, work, steps[0]);
            let t = CFToLLVM::carried(ir, steps[0], s);
            CFToLLVM::step_keeps_order(ir, work, steps[0]);
            let (f, _) = CFToLLVM::step_keeps_meaning(ir, work, steps[0], acts, o, i, s, fuel);
            let mid = after.ran_region(acts, r, after.entry(o, i), t, f)->0;
            CFToLLVM::conversion_keeps_meaning(after, left, steps.skip(1), acts, o, i, t, f);
            choose|g: nat|
                after.ends_alike(
                    done,
                    mid,
                    #[trigger] done.ran_region(
                        acts,
                        after.ops[o].regions[i],
                        done.entry(o, i),
                        u,
                        g,
                    ),
                )
        };
        assert(ir.ends_alike(
            done,
            end,
            done.ran_region(acts, ir.ops[o].regions[i], done.entry(o, i), u, g),
        ));
    }

    /// The conversion adds nothing to what the program means. If a run of such a region comes to an
    /// end after the steps, then it did so before: at the same operation, which was handed the same
    /// numbers.
    pub proof fn conversion_adds_nothing(
        ir: Ir,
        work: Set<OpId>,
        steps: Seq<ConversionStep>,
        acts: spec_fn(OpId, Seq<int>, int) -> (Seq<int>, int),
        o: OpId,
        i: int,
        s: State,
        fuel: nat,
    )
        requires
            ir.wf(),
            CFToLLVM::all_in_order(ir, work),
            CFToLLVM::goes_through(ir, work, steps),
            CFToLLVM::beyond(ir, work, o),
            ir.has_body(o, i),
            CFToLLVM::converted(ir, steps).ran_region(
                acts,
                ir.ops[o].regions[i],
                CFToLLVM::converted(ir, steps).entry(o, i),
                CFToLLVM::carried_all(ir, steps, s),
                fuel,
            ) is Some,
        ensures
            exists|f: nat|
                {
                    let end = #[trigger] ir.ran_region(
                        acts,
                        ir.ops[o].regions[i],
                        ir.entry(o, i),
                        s,
                        f,
                    );
                    end is Some && ir.ends_alike(
                        CFToLLVM::converted(ir, steps),
                        end->0,
                        CFToLLVM::converted(ir, steps).ran_region(
                            acts,
                            ir.ops[o].regions[i],
                            CFToLLVM::converted(ir, steps).entry(o, i),
                            CFToLLVM::carried_all(ir, steps, s),
                            fuel,
                        ),
                    )
                },
        decreases steps.len(),
    {
        let done = CFToLLVM::converted(ir, steps);
        let u = CFToLLVM::carried_all(ir, steps, s);
        let r = ir.ops[o].regions[i];
        let last = done.ran_region(acts, r, done.entry(o, i), u, fuel);
        let f = if steps.len() == 0 {
            fuel
        } else {
            let after = CFToLLVM::stepped(ir, steps[0]);
            let left = CFToLLVM::work_left(ir, work, steps[0]);
            let t = CFToLLVM::carried(ir, steps[0], s);
            CFToLLVM::step_keeps_order(ir, work, steps[0]);
            CFToLLVM::step_keeps_meaning(ir, work, steps[0], acts, o, i, s, fuel);
            CFToLLVM::conversion_adds_nothing(after, left, steps.skip(1), acts, o, i, t, fuel);
            let g = choose|g: nat|
                {
                    let mid = #[trigger] after.ran_region(
                        acts,
                        after.ops[o].regions[i],
                        after.entry(o, i),
                        t,
                        g,
                    );
                    mid is Some && after.ends_alike(done, mid->0, last)
                };
            let (_, h) = CFToLLVM::step_keeps_meaning(ir, work, steps[0], acts, o, i, s, g);
            h
        };
        let end = ir.ran_region(acts, ir.ops[o].regions[i], ir.entry(o, i), s, f);
        assert(end is Some && ir.ends_alike(done, end->0, last));
    }
}

} // verus!
