//! Making the operations that were read, once the names in them have been resolved. Their
//! regions are read, and added, after that.

use crate::cf::ops::{CondBrOp, ExecuteRegionOp, ForOp, IfOp, NDForOp, NDForOpParseErr};
use crate::cf::syntax::grammar::Grammar;
use crate::ir::context::Context;
use crate::ir::model::{Def, Ir, OpView};
use crate::ir::segments::Segments;
use crate::ir::types::{BlockId, OpId, OpKind, Type, Value};
use vstd::prelude::*;

verus! {

/// An operation was written with results, and must not have any.
#[derive(Debug, Clone, Copy, PartialEq, Eq, Structural)]
pub struct ResultsNotAllowed {
    pub found: usize,
}

impl Ir {
    /// The results of an operation get names.
    pub open spec fn named_results(self, op: OpId, names: Seq<Seq<char>>) -> Ir {
        let results = self.ops[op].results;
        Ir {
            ops: self.ops.insert(
                op,
                OpView {
                    results: Seq::new(
                        results.len(),
                        |i: int| Def { name: Some(names[i]), ..results[i] },
                    ),
                    ..self.ops[op]
                },
            ),
            ..self
        }
    }
}

/// Names the results of an operation as they were written.
pub fn name_results(ctx: &mut Context, op: OpId, names: &Vec<String>)
    requires
        old(ctx).wf(),
        old(ctx)@.ops.contains_key(op),
        names@.len() == old(ctx)@.ops[op].results.len(),
    ensures
        final(ctx).wf(),
        final(ctx).extends(old(ctx).journal()),
        final(ctx)@ == old(ctx)@.named_results(op, Grammar::texts(names@)),
        final(ctx)@.ops[op].results.len() == names@.len(),
        forall|i: int|
            0 <= i < names@.len() ==> (#[trigger] final(ctx)@.ops[op].results[i]).name == Some(
                names@[i]@,
            ) && final(ctx)@.ops[op].results[i].ty == old(ctx)@.ops[op].results[i].ty,
{
    let ghost ir = ctx@;
    let ghost results = ir.ops[op].results;
    let ghost named = ir.named_results(op, Grammar::texts(names@)).ops[op].results;
    proof {
        assert(named.take(0) + results.skip(0) =~= results);
        assert(ir.ops.insert(op, OpView { results, ..ir.ops[op] }) =~= ir.ops);
    }
    for i in 0..names.len()
        invariant
            ctx.wf(),
            ctx.extends(old(ctx).journal()),
            ir.ops.contains_key(op),
            results == ir.ops[op].results,
            names@.len() == results.len() == named.len(),
            named == ir.named_results(op, Grammar::texts(names@)).ops[op].results,
            ctx@ == (Ir {
                ops: ir.ops.insert(
                    op,
                    OpView {
                        results: named.take(i as int) + results.skip(i as int),
                        ..ir.ops[op]
                    },
                ),
                ..ir
            }),
    {
        ctx.name_result(op, i, names[i].clone());
        proof {
            let done = named.take(i as int) + results.skip(i as int);
            assert(done.update(
                i as int,
                Def { name: Some(names@[i as int]@), ..done[i as int] },
            ) =~= named.take(i + 1) + results.skip(i + 1));
            assert(ctx@.ops =~= ir.ops.insert(
                op,
                OpView { results: named.take(i + 1) + results.skip(i + 1), ..ir.ops[op] },
            ));
        }
    }
    proof {
        let n = names@.len() as int;
        assert(named.take(n) + results.skip(n) =~= named);
    }
}

impl CondBrOp {
    /// Refuses the results with which a conditional branch was written: it must not have any.
    pub fn refuse_results(results: &Vec<String>) -> (refused: Result<(), ResultsNotAllowed>)
        ensures
            refused == (if results@.len() == 0 {
                Ok(())
            } else {
                Err(ResultsNotAllowed { found: results@.len() as usize })
            }),
    {
        if results.len() != 0 {
            return Err(ResultsNotAllowed { found: results.len() });
        }
        Ok(())
    }

    /// Makes a conditional branch that was read. It must not have been written with results.
    pub fn build(
        ctx: &mut Context,
        results: &Vec<String>,
        condition: Value,
        true_dest: BlockId,
        true_dest_opds: Vec<Value>,
        false_dest: BlockId,
        false_dest_opds: Vec<Value>,
    ) -> (made: Result<CondBrOp, ResultsNotAllowed>)
        requires
            old(ctx).wf(),
            old(ctx)@.has_value(condition),
            old(ctx)@.has_values(true_dest_opds@),
            old(ctx)@.has_values(false_dest_opds@),
            old(ctx)@.blocks.contains_key(true_dest),
            old(ctx)@.blocks.contains_key(false_dest),
            true_dest_opds@.len() <= u32::MAX,
            false_dest_opds@.len() <= u32::MAX,
        ensures
            final(ctx).wf(),
            final(ctx).extends(old(ctx).journal()),
            if results@.len() == 0 {
                &&& made == Ok::<CondBrOp, ResultsNotAllowed>(
                    CondBrOp { op: old(ctx)@.op_at(0) },
                )
                &&& final(ctx)@ == old(ctx)@.with_op(
                    CondBrOp::view(
                        condition,
                        true_dest,
                        true_dest_opds@,
                        false_dest,
                        false_dest_opds@,
                    ),
                )
            } else {
                &&& made == Err::<CondBrOp, ResultsNotAllowed>(
                    (ResultsNotAllowed { found: results@.len() as usize }),
                )
                &&& final(ctx)@ == old(ctx)@
            },
    {
        match CondBrOp::refuse_results(results) {
            Ok(()) => {},
            Err(err) => {
                return Err(err);
            },
        }
        Ok(
            CondBrOp::new(
                ctx,
                condition,
                true_dest,
                true_dest_opds,
                false_dest,
                false_dest_opds,
            ),
        )
    }
}

impl ForOp {
    /// A loop, in no block, that has no region yet.
    pub open spec fn unfilled(
        ir: Ir,
        lower_bound: Value,
        upper_bound: Value,
        step: Value,
        inits: Seq<Value>,
    ) -> OpView {
        OpView::simple(
            OpKind::CfFor,
            ir.types_of(inits),
            seq![lower_bound, upper_bound, step] + inits,
            Seq::empty(),
            seq![3u32, inits.len() as u32],
        )
    }

    /// Makes a loop that was read. Its results have the types of the initial values of its
    /// loop-carried variables.
    pub fn build(
        ctx: &mut Context,
        lower_bound: Value,
        upper_bound: Value,
        step: Value,
        iter_args_init: Vec<Value>,
    ) -> (this: ForOp)
        requires
            old(ctx).wf(),
            old(ctx)@.has_value(lower_bound),
            old(ctx)@.has_value(upper_bound),
            old(ctx)@.has_value(step),
            old(ctx)@.has_values(iter_args_init@),
            iter_args_init@.len() <= u32::MAX,
        ensures
            final(ctx).wf(),
            final(ctx).extends(old(ctx).journal()),
            this.op == old(ctx)@.op_at(0),
            final(ctx)@ == old(ctx)@.with_op(
                ForOp::unfilled(
                    old(ctx)@,
                    lower_bound,
                    upper_bound,
                    step,
                    iter_args_init@,
                ),
            ),
    {
        let ghost ir = ctx@;
        let ghost inits = iter_args_init@;
        let result_types = ctx.types_of(&iter_args_init);
        let bounds: Vec<Value> = vec![lower_bound, upper_bound, step];
        assert(bounds@ =~= seq![lower_bound, upper_bound, step]);
        let groups: Vec<Vec<Value>> = vec![bounds, iter_args_init];
        proof {
            assert(Segments::groups(groups@) =~= seq![
                seq![lower_bound, upper_bound, step],
                inits,
            ]);
            Segments::flatten_two(seq![lower_bound, upper_bound, step], inits);
        }
        let (operands, segments) = Segments::compute_segment_sizes(groups);
        let ghost all = seq![lower_bound, upper_bound, step] + inits;
        assert(operands@ == all);
        assert(segments@ =~= seq![3u32, inits.len() as u32]);
        assert forall|k: int| 0 <= k < all.len() implies ir.has_value(#[trigger] all[k]) by {
            if k >= 3 {
                assert(all[k] == inits[k - 3]);
            }
        }
        proof {
            ir.created_simple_op(
                OpKind::CfFor,
                result_types@,
                operands@,
                Seq::empty(),
                segments@,
            );
        }
        let op: OpId = ctx.create_op(
            OpKind::CfFor,
            result_types,
            operands,
            Vec::new(),
            0,
            segments,
        );
        ForOp { op }
    }
}

impl NDForOp {
    /// A loop, in no block, that has no region yet.
    pub open spec fn unfilled(
        lower_bounds: Seq<Value>,
        upper_bounds: Seq<Value>,
        steps: Seq<Value>,
    ) -> OpView {
        OpView::simple(
            OpKind::CfNDFor,
            Seq::empty(),
            lower_bounds + upper_bounds + steps,
            Seq::empty(),
            seq![lower_bounds.len() as u32, upper_bounds.len() as u32, steps.len() as u32],
        )
    }

    /// Refuses the results with which a loop was written: it must not have any.
    pub fn refuse_results(results: &Vec<String>) -> (refused: Result<(), NDForOpParseErr>)
        ensures
            refused == (if results@.len() == 0 {
                Ok(())
            } else {
                Err(NDForOpParseErr::NoResultsAllowed)
            }),
    {
        if results.len() != 0 {
            return Err(NDForOpParseErr::NoResultsAllowed);
        }
        Ok(())
    }

    /// Makes a loop that was read. It must not have been written with results.
    pub fn build(
        ctx: &mut Context,
        results: &Vec<String>,
        lower_bounds: Vec<Value>,
        upper_bounds: Vec<Value>,
        steps: Vec<Value>,
    ) -> (made: Result<NDForOp, NDForOpParseErr>)
        requires
            old(ctx).wf(),
            old(ctx)@.has_values(lower_bounds@),
            old(ctx)@.has_values(upper_bounds@),
            old(ctx)@.has_values(steps@),
            lower_bounds@.len() <= u32::MAX,
            upper_bounds@.len() <= u32::MAX,
            steps@.len() <= u32::MAX,
        ensures
            final(ctx).wf(),
            final(ctx).extends(old(ctx).journal()),
            if results@.len() == 0 {
                &&& made == Ok::<NDForOp, NDForOpParseErr>(NDForOp { op: old(ctx)@.op_at(0) })
                &&& final(ctx)@ == old(ctx)@.with_op(
                    NDForOp::unfilled(lower_bounds@, upper_bounds@, steps@),
                )
            } else {
                &&& made == Err::<NDForOp, NDForOpParseErr>(NDForOpParseErr::NoResultsAllowed)
                &&& final(ctx)@ == old(ctx)@
            },
    {
        let ghost ir = ctx@;
        let ghost (lbs, ubs, sts) = (lower_bounds@, upper_bounds@, steps@);
        match NDForOp::refuse_results(results) {
            Ok(()) => {},
            Err(err) => {
                return Err(err);
            },
        }
        let groups: Vec<Vec<Value>> = vec![lower_bounds, upper_bounds, steps];
        proof {
            assert(Segments::groups(groups@) =~= seq![lbs, ubs, sts]);
            Segments::flatten_three(lbs, ubs, sts);
        }
        let (operands, segments) = Segments::compute_segment_sizes(groups);
        let ghost all = lbs + ubs + sts;
        assert(operands@ == all);
        assert(segments@ =~= seq![lbs.len() as u32, ubs.len() as u32, sts.len() as u32]);
        assert forall|k: int| 0 <= k < all.len() implies ir.has_value(#[trigger] all[k]) by {
            if k < lbs.len() {
                assert(all[k] == lbs[k]);
            } else if k < lbs.len() + ubs.len() {
                assert(all[k] == ubs[k - lbs.len()]);
            } else {
                assert(all[k] == sts[k - lbs.len() - ubs.len()]);
            }
        }
        proof {
            ir.created_simple_op(
                OpKind::CfNDFor,
                Seq::empty(),
                operands@,
                Seq::empty(),
                segments@,
            );
        }
        let op: OpId = ctx.create_op(
            OpKind::CfNDFor,
            Vec::new(),
            operands,
            Vec::new(),
            0,
            segments,
        );
        Ok(NDForOp { op })
    }
}

impl ExecuteRegionOp {
    /// An operation, in no block, that has no region yet.
    pub open spec fn unfilled(result_types: Seq<Type>) -> OpView {
        OpView::simple(
            OpKind::CfExecuteRegion,
            result_types,
            Seq::empty(),
            Seq::empty(),
            Seq::empty(),
        )
    }

    /// Makes an operation that was read.
    pub fn build(ctx: &mut Context, result_types: Vec<Type>) -> (this: ExecuteRegionOp)
        requires
            old(ctx).wf(),
        ensures
            final(ctx).wf(),
            final(ctx).extends(old(ctx).journal()),
            this.op == old(ctx)@.op_at(0),
            final(ctx)@ == old(ctx)@.with_op(ExecuteRegionOp::unfilled(result_types@)),
    {
        proof {
            ctx@.created_simple_op(
                OpKind::CfExecuteRegion,
                result_types@,
                Seq::empty(),
                Seq::empty(),
                Seq::empty(),
            );
        }
        let op: OpId = ctx.create_op(
            OpKind::CfExecuteRegion,
            result_types,
            Vec::new(),
            Vec::new(),
            0,
            Vec::new(),
        );
        ExecuteRegionOp { op }
    }
}

impl IfOp {
    /// Makes an operation that was read.
    pub fn build(ctx: &mut Context, condition: Value, result_types: Vec<Type>) -> (this: IfOp)
        requires
            old(ctx).wf(),
            old(ctx)@.has_value(condition),
        ensures
            final(ctx).wf(),
            final(ctx).extends(old(ctx).journal()),
            this.op == old(ctx)@.op_at(0),
            final(ctx)@ == old(ctx)@.with_op(
                OpView::simple(
                    OpKind::CfIf,
                    result_types@,
                    seq![condition],
                    Seq::empty(),
                    Seq::empty(),
                ),
            ),
    {
        let operands: Vec<Value> = vec![condition];
        assert(operands@ =~= seq![condition]);
        proof {
            ctx@.created_simple_op(
                OpKind::CfIf,
                result_types@,
                seq![condition],
                Seq::empty(),
                Seq::empty(),
            );
        }
        let op: OpId = ctx.create_op(
            OpKind::CfIf,
            result_types,
            operands,
            Vec::new(),
            0,
            Vec::new(),
        );
        IfOp { op }
    }
}

} // verus!
