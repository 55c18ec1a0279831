//! What naming the results of an operation, and making an operation that was read, amount to.

use crate::cf::ops::{ExecuteRegionOp, ForOp, NDForOp};
use crate::ir::model::{Ir, OpView};
use crate::ir::types::{OpId, Type, Value};
use vstd::prelude::*;

verus! {

impl Ir {
    /// Each result gets the name at its own position, and keeps its type. Nothing else changes.
    pub proof fn each_result_named(self, op: OpId, names: Seq<Seq<char>>)
        requires
            self.ops.contains_key(op),
            names.len() == self.ops[op].results.len(),
        ensures
            ({
                let before = self.ops[op];
                let after = self.named_results(op, names);
                let now = after.ops[op];
                &&& now.results.len() == names.len()
                &&& forall|i: int|
                    0 <= i < names.len() ==> (#[trigger] now.results[i]).name == Some(names[i])
                        && now.results[i].ty == before.results[i].ty
                &&& now == (OpView { results: now.results, ..before })
                &&& after == (Ir { ops: self.ops.insert(op, now), ..self })
            }),
    {
        let after = self.named_results(op, names);
        assert(after.ops =~= self.ops.insert(op, after.ops[op]));
    }

    /// Giving the results names once more leaves only the names that were given last.
    pub proof fn named_again(self, op: OpId, names: Seq<Seq<char>>, others: Seq<Seq<char>>)
        requires
            self.ops.contains_key(op),
            names.len() == others.len() == self.ops[op].results.len(),
        ensures
            self.named_results(op, others).named_results(op, names) == self.named_results(
                op,
                names,
            ),
    {
        let once = self.named_results(op, names);
        let twice = self.named_results(op, others).named_results(op, names);
        assert(twice.ops[op].results =~= once.ops[op].results);
        assert(twice.ops =~= once.ops);
    }
}

impl ForOp {
    /// A loop that was read has the bounds, the step and the initial values that it was given, in
    /// that order, and a result of the type of each initial value.
    pub proof fn read_of(
        ir: Ir,
        lower_bound: Value,
        upper_bound: Value,
        step: Value,
        inits: Seq<Value>,
    )
        requires
            inits.len() <= u32::MAX,
        ensures
            ({
                let op = ir.op_at(0);
                let done = ir.with_op(
                    ForOp::unfilled(ir, lower_bound, upper_bound, step, inits),
                );
                let view = done.ops[op];
                let this = ForOp { op };
                &&& done.made_op(ir, op)
                &&& view.kind is CfFor
                &&& view.operands.len() == inits.len() + 3
                &&& view.operands[0] == lower_bound
                &&& view.operands[1] == upper_bound
                &&& view.operands[2] == step
                &&& forall|i: int|
                    0 <= i < inits.len() ==> view.operands[i + 3] == #[trigger] inits[i]
                &&& this.lower_bound(done) == lower_bound
                &&& this.upper_bound(done) == upper_bound
                &&& this.step(done) == step
                &&& this.iter_args_init(done) == inits
                &&& view.results.len() == inits.len()
                &&& forall|i: int|
                    0 <= i < inits.len() ==> (#[trigger] view.results[i]).ty == ir.def(inits[i]).ty
                        && view.results[i].name is None
                &&& view.successors.len() == 0
                &&& view.regions.len() == 0
                &&& view.parent is None
            }),
    {
        let view = ForOp::unfilled(ir, lower_bound, upper_bound, step, inits);
        view.two_starts();
        assert(view.segment(0) =~= seq![lower_bound, upper_bound, step]);
        assert(view.segment(1) =~= inits);
    }
}

impl NDForOp {
    /// A loop that was read has the lower bounds, the upper bounds and the steps that it was
    /// given, each in the order in which it was given them, and no results.
    pub proof fn read_of(
        ir: Ir,
        lower_bounds: Seq<Value>,
        upper_bounds: Seq<Value>,
        steps: Seq<Value>,
    )
        requires
            lower_bounds.len() <= u32::MAX,
            upper_bounds.len() <= u32::MAX,
            steps.len() <= u32::MAX,
        ensures
            ({
                let op = ir.op_at(0);
                let done = ir.with_op(NDForOp::unfilled(lower_bounds, upper_bounds, steps));
                let view = done.ops[op];
                let this = NDForOp { op };
                let (l, u, s) = (lower_bounds.len(), upper_bounds.len(), steps.len());
                &&& done.made_op(ir, op)
                &&& view.kind is CfNDFor
                &&& view.operands.len() == l + u + s
                &&& forall|i: int|
                    0 <= i < l ==> view.operands[i] == #[trigger] lower_bounds[i]
                &&& forall|i: int|
                    0 <= i < u ==> view.operands[l + i] == #[trigger] upper_bounds[i]
                &&& forall|i: int|
                    0 <= i < s ==> view.operands[l + u + i] == #[trigger] steps[i]
                &&& this.lower_bounds(done) == lower_bounds
                &&& this.upper_bounds(done) == upper_bounds
                &&& this.steps(done) == steps
                &&& view.segments.len() == 3
                &&& view.results.len() == 0
                &&& view.successors.len() == 0
                &&& view.regions.len() == 0
                &&& view.parent is None
            }),
    {
        let view = NDForOp::unfilled(lower_bounds, upper_bounds, steps);
        view.three_starts();
        assert(view.segment(0) =~= lower_bounds);
        assert(view.segment(1) =~= upper_bounds);
        assert(view.segment(2) =~= steps);
    }
}

impl ExecuteRegionOp {
    /// An operation that was read has results of the types that it was given, in that order, and
    /// takes nothing.
    pub proof fn read_of(ir: Ir, result_types: Seq<Type>)
        ensures
            ({
                let op = ir.op_at(0);
                let done = ir.with_op(ExecuteRegionOp::unfilled(result_types));
                let view = done.ops[op];
                &&& done.made_op(ir, op)
                &&& view.kind is CfExecuteRegion
                &&& view.operands.len() == 0
                &&& view.results.len() == result_types.len()
                &&& forall|i: int|
                    0 <= i < result_types.len() ==> (#[trigger] view.results[i]).ty
                        == result_types[i] && view.results[i].name is None
                &&& view.successors.len() == 0
                &&& view.regions.len() == 0
                &&& view.parent is None
            }),
    {
    }
}

} // verus!
