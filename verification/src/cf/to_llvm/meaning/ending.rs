//! The conversion comes to an end.

use crate::cf::ops::NDForOp;
use crate::cf::to_llvm::meaning::conversion::ConversionStep;
use crate::cf::to_llvm::CFToLLVM;
use crate::ir::model::Ir;
use crate::ir::types::OpId;
use vstd::prelude::*;

verus! {

impl CFToLLVM {
    /// How many lowerings it takes until nothing is left of an operation: one for the operation,
    /// and, if it is a loop over several dimensions, one for each of these.
    pub open spec fn weight(ir: Ir, o: OpId) -> nat {
        if ir.ops[o].kind is CfNDFor {
            (1 + (NDForOp { op: o }).dims(ir)) as nat
        } else {
            1
        }
    }

    /// How many lowerings it takes until nothing is left of the operations.
    pub open spec fn cost(ir: Ir, work: Set<OpId>) -> nat
        decreases work.len(),
        when work.finite()
    {
        if work.len() == 0 {
            0
        } else {
            let o = work.choose();
            CFToLLVM::weight(ir, o) + CFToLLVM::cost(ir, work.remove(o))
        }
    }

    /// The number of lowerings among the steps.
    pub open spec fn lowerings(steps: Seq<ConversionStep>) -> nat
        decreases steps.len(),
    {
        if steps.len() == 0 {
            0
        } else {
            (if steps[0] is Lower {
                1nat
            } else {
                0
            }) + CFToLLVM::lowerings(steps.skip(1))
        }
    }

    /// Without one of the operations, it takes the lowerings of that less.
    proof fn cost_without(ir: Ir, work: Set<OpId>, o: OpId)
        requires
            work.finite(),
            work.contains(o),
        ensures
            CFToLLVM::cost(ir, work) == CFToLLVM::weight(ir, o) + CFToLLVM::cost(
                ir,
                work.remove(o),
            ),
        decreases work.len(),
    {
        let c = work.choose();
        assert(work.len() > 0);
        if c != o {
            CFToLLVM::cost_without(ir, work.remove(c), o);
            CFToLLVM::cost_without(ir, work.remove(o), c);
            assert(work.remove(c).remove(o) =~= work.remove(o).remove(c));
        }
    }

    /// Operations of which each takes as many lowerings as before take as many in all.
    proof fn cost_alike(ir: Ir, after: Ir, work: Set<OpId>)
        requires
            work.finite(),
            forall|o: OpId| #[trigger]
                work.contains(o) ==> CFToLLVM::weight(after, o) == CFToLLVM::weight(ir, o),
        ensures
            CFToLLVM::cost(after, work) == CFToLLVM::cost(ir, work),
        decreases work.len(),
    {
        if work.len() > 0 {
            CFToLLVM::cost_alike(ir, after, work.remove(work.choose()));
        }
    }

    /// The first `n` of the loops that a lowering leaves, and others, take one lowering each more
    /// than the others do.
    proof fn cost_of_left(ir: Ir, op: OpId, rest: Set<OpId>, n: int)
        requires
            ir.wf(),
            ir.ops[op].kind is CfNDFor,
            CFToLLVM::in_order(ir, op),
            CFToLLVM::lowered(ir, op).wf(),
            0 <= n <= (NDForOp { op }).dims(ir),
            rest.finite(),
            forall|o: OpId| #[trigger] rest.contains(o) ==> ir.ops.contains_key(o),
        ensures
            ({
                let some = Set::new(
                    |o: OpId|
                        exists|i: int|
                            0 <= i < n && o == #[trigger] (NDForOp { op }).loop_op(ir, i),
                );
                &&& rest.union(some).finite()
                &&& CFToLLVM::cost(CFToLLVM::lowered(ir, op), rest.union(some)) == CFToLLVM::cost(
                    CFToLLVM::lowered(ir, op),
                    rest,
                ) + n
            }),
        decreases n,
    {
        let this = NDForOp { op };
        let after = CFToLLVM::lowered(ir, op);
        let some = Set::new(
            |o: OpId| exists|i: int| 0 <= i < n && o == #[trigger] this.loop_op(ir, i),
        );
        if n == 0 {
            assert(rest.union(some) =~= rest);
        } else {
            let fewer = Set::new(
                |o: OpId| exists|i: int| 0 <= i < n - 1 && o == #[trigger] this.loop_op(ir, i),
            );
            let last = this.loop_op(ir, n - 1);
            assert(CFToLLVM::left_to_convert(ir, op).contains(last));
            CFToLLVM::left_is_new(ir, op, last);
            assert(this.lowered(ir).next_op <= usize::MAX) by {
                reveal(Ir::wf);
            }
            assert((2 * (n - 1)) / 2 == n - 1);
            assert(after.ops[last].kind is CfFor);
            CFToLLVM::cost_of_left(ir, op, rest, n - 1);
            assert forall|o: OpId| some.contains(o) implies o == last || #[trigger] fewer.contains(
                o,
            ) by {
                let i = choose|i: int| 0 <= i < n && o == #[trigger] this.loop_op(ir, i);
                if i < n - 1 {
                    assert(0 <= i < n - 1 && o == this.loop_op(ir, i));
                }
            }
            assert forall|o: OpId| #[trigger] fewer.contains(o) implies some.contains(o) && o
                != last by {
                let i = choose|i: int| 0 <= i < n - 1 && o == #[trigger] this.loop_op(ir, i);
                assert(0 <= i < n && o == this.loop_op(ir, i));
                assert(this.loop_op(ir, i) == ir.next_op + 2 * i);
                assert(last == ir.next_op + 2 * (n - 1));
            }
            assert(some.contains(last));
            let all = rest.union(some);
            assert(all.remove(last) =~= rest.union(fewer));
            assert(all =~= rest.union(fewer).insert(last));
            CFToLLVM::cost_without(after, all, last);
        }
    }

    /// A step takes what it should of the lowerings that are left.
    proof fn step_takes(ir: Ir, work: Set<OpId>, step: ConversionStep)
        requires
            ir.wf(),
            work.finite(),
            CFToLLVM::all_in_order(ir, work),
            CFToLLVM::step_fits(ir, work, step),
        ensures
            ({
                let after = CFToLLVM::stepped(ir, step);
                let left = CFToLLVM::work_left(ir, work, step);
                &&& left.finite()
                &&& CFToLLVM::cost(ir, work) == CFToLLVM::cost(after, left) + if step is Lower {
                    1nat
                } else {
                    0
                }
            }),
    {
        let after = CFToLLVM::stepped(ir, step);
        let left = CFToLLVM::work_left(ir, work, step);
        match step {
            ConversionStep::Lower(op) => {
                let rest = work.remove(op);
                assert(CFToLLVM::in_order(ir, op));
                assert forall|o: OpId| #[trigger] rest.contains(o) implies CFToLLVM::weight(
                    after,
                    o,
                ) == CFToLLVM::weight(ir, o) && ir.ops.contains_key(o) by {
                    assert(work.contains(o));
                    CFToLLVM::lowering_keeps_weight(ir, op, o);
                }
                CFToLLVM::cost_without(ir, work, op);
                CFToLLVM::cost_alike(ir, after, rest);
                if ir.ops[op].kind is CfNDFor {
                    let n = (NDForOp { op }).dims(ir);
                    CFToLLVM::cost_of_left(ir, op, rest, n);
                } else {
                    assert(left =~= rest);
                }
            },
            ConversionStep::Retype(block, idx) => {
                ir.argument_converted_keeps(block, idx);
                assert forall|o: OpId| #[trigger] work.contains(o) implies CFToLLVM::weight(
                    after,
                    o,
                ) == CFToLLVM::weight(ir, o) by {}
                CFToLLVM::cost_alike(ir, after, work);
            },
        }
    }

    /// Any other operation takes as many lowerings after a lowering as before.
    proof fn lowering_keeps_weight(ir: Ir, op: OpId, o: OpId)
        requires
            ir.wf(),
            CFToLLVM::in_order(ir, op),
            CFToLLVM::lowered(ir, op).wf(),
            ir.branches_stay(),
            CFToLLVM::in_order(ir, o),
            o != op,
        ensures
            CFToLLVM::weight(CFToLLVM::lowered(ir, op), o) == CFToLLVM::weight(ir, o),
    {
        let after = CFToLLVM::lowered(ir, op);
        let way = CFToLLVM::replacement(ir, op);
        let view = ir.ops[o];
        CFToLLVM::lowering_keeps_order(ir, op, o);
        CFToLLVM::reshapes(ir, op);
        if ir.ends(o, op) {
            CFToLLVM::ends_with_yield(ir, op, o);
        }
        assert(ir.kept(o, op));
        assert(ir.same_but_renamed(after, way, o));
        if view.kind is CfNDFor {
            view.earlier_segment(0, 2);
            view.earlier_segment(1, 2);
            ir.segment_renamed(after, way, o, 0);
            ir.segment_renamed(after, way, o, 1);
            ir.segment_renamed(after, way, o, 2);
        }
    }

    /// The conversion comes to an end, in whatever order operations are lowered: what has been
    /// lowered, and what it takes to lower the rest, is in all what it took at the start.
    pub proof fn conversion_gets_on(ir: Ir, work: Set<OpId>, steps: Seq<ConversionStep>)
        requires
            ir.wf(),
            work.finite(),
            CFToLLVM::all_in_order(ir, work),
            CFToLLVM::goes_through(ir, work, steps),
        ensures
            CFToLLVM::work_after(ir, work, steps).finite(),
            CFToLLVM::lowerings(steps) + CFToLLVM::cost(
                CFToLLVM::converted(ir, steps),
                CFToLLVM::work_after(ir, work, steps),
            ) == CFToLLVM::cost(ir, work),
        decreases steps.len(),
    {
        if steps.len() > 0 {
            CFToLLVM::step_takes(ir, work, steps[0]);
            CFToLLVM::step_keeps_order(ir, work, steps[0]);
            CFToLLVM::conversion_gets_on(
                CFToLLVM::stepped(ir, steps[0]),
                CFToLLVM::work_left(ir, work, steps[0]),
                steps.skip(1),
            );
        }
    }

    /// As long as something is left to be lowered, it takes at least one more lowering.
    pub proof fn something_left_costs(ir: Ir, work: Set<OpId>)
        requires
            work.finite(),
        ensures
            CFToLLVM::cost(ir, work) == 0 <==> work == Set::<OpId>::empty(),
    {
        if work.len() > 0 {
            assert(CFToLLVM::weight(ir, work.choose()) > 0);
            assert(work.contains(work.choose()));
        } else {
            assert(work =~= Set::<OpId>::empty());
        }
    }
}

} // verus!
