//! What a branch forwards, after values have been added to it and taken away from it.

use crate::cf::ops::{BrOp, CondBrOp};
use crate::ir::model::{Ir, OpView};
use crate::ir::types::{BlockId, OpId, Value};
use vstd::prelude::*;

verus! {

impl BrOp {
    /// Forwarding one more value puts it behind those that are forwarded already, and changes
    /// nothing else.
    pub proof fn adds_at_the_end(self, ir: Ir, operand: Value)
        requires
            ir.ops.contains_key(self.op),
        ensures
            ({
                let before = ir.ops[self.op];
                let after = self.forwarding_more(ir, operand);
                let now = after.ops[self.op];
                &&& now.operands.len() == before.operands.len() + 1
                &&& now.operands.last() == operand
                &&& forall|i: int|
                    0 <= i < before.operands.len() ==> #[trigger] now.operands[i]
                        == before.operands[i]
                &&& now == (OpView { operands: now.operands, ..before })
                &&& after == (Ir { ops: ir.ops.insert(self.op, now), ..ir })
            }),
    {
        let before = ir.ops[self.op];
        let after = self.forwarding_more(ir, operand);
        assert(after.ops =~= ir.ops.insert(self.op, after.ops[self.op]));
        assert(after.ops[self.op] =~= (OpView {
            operands: after.ops[self.op].operands,
            ..before
        }));
    }

    /// Taking away one of the values, at whatever position it is, leaves those before it followed
    /// by those after it, and changes nothing else.
    pub proof fn takes_one_away(self, ir: Ir, opd_idx: int)
        requires
            ir.ops.contains_key(self.op),
            0 <= opd_idx < ir.ops[self.op].operands.len(),
        ensures
            ({
                let before = ir.ops[self.op];
                let after = self.forwarding_less(ir, opd_idx);
                let now = after.ops[self.op];
                &&& now.operands == before.operands.take(opd_idx) + before.operands.skip(
                    opd_idx + 1,
                )
                &&& now == (OpView { operands: now.operands, ..before })
                &&& after == (Ir { ops: ir.ops.insert(self.op, now), ..ir })
            }),
    {
        let before = ir.ops[self.op];
        let after = self.forwarding_less(ir, opd_idx);
        assert(after.ops[self.op].operands =~= before.operands.take(opd_idx)
            + before.operands.skip(opd_idx + 1));
        assert(after.ops =~= ir.ops.insert(self.op, after.ops[self.op]));
        assert(after.ops[self.op] =~= (OpView {
            operands: after.ops[self.op].operands,
            ..before
        }));
    }

    /// It does not matter in which order one value is added and another is taken away.
    pub proof fn add_and_remove_commute(self, ir: Ir, operand: Value, opd_idx: int)
        requires
            ir.ops.contains_key(self.op),
            0 <= opd_idx < ir.ops[self.op].operands.len(),
        ensures
            self.forwarding_less(self.forwarding_more(ir, operand), opd_idx)
                == self.forwarding_more(self.forwarding_less(ir, opd_idx), operand),
    {
        let more = self.forwarding_more(ir, operand);
        let less = self.forwarding_less(ir, opd_idx);
        self.adds_at_the_end(ir, operand);
        self.takes_one_away(ir, opd_idx);
        self.takes_one_away(more, opd_idx);
        self.adds_at_the_end(less, operand);
        let one = self.forwarding_less(more, opd_idx);
        let other = self.forwarding_more(less, operand);
        assert(one.ops[self.op].operands =~= other.ops[self.op].operands);
        assert(one.ops =~= other.ops);
    }
}

impl CondBrOp {
    /// Does the operation have a condition, and then the values `t` and `f` for its two successors?
    pub open spec fn forwards(self, ir: Ir, condition: Value, t: Seq<Value>, f: Seq<Value>) -> bool {
        let view = ir.ops[self.op];
        &&& view.operands == seq![condition] + t + f
        &&& view.segments.len() == 3
        &&& view.segments[0] == 1
        &&& view.segments[1] == t.len()
        &&& view.segments[2] == f.len()
    }

    /// Forwarding one more value to a successor puts it behind those that are forwarded to that
    /// one already. The condition, what is forwarded to the other successor and all else stay.
    pub proof fn adds_at_the_end(
        self,
        ir: Ir,
        condition: Value,
        t: Seq<Value>,
        f: Seq<Value>,
        succ_idx: int,
        operand: Value,
    )
        requires
            ir.ops.contains_key(self.op),
            self.forwards(ir, condition, t, f),
            succ_idx == 0 || succ_idx == 1,
            t.len() < u32::MAX,
            f.len() < u32::MAX,
        ensures
            ({
                let before = ir.ops[self.op];
                let after = self.forwarding_more(ir, succ_idx, operand);
                let now = after.ops[self.op];
                &&& succ_idx == 0 ==> self.forwards(after, condition, t.push(operand), f)
                &&& succ_idx == 1 ==> self.forwards(after, condition, t, f.push(operand))
                &&& now == (OpView { operands: now.operands, segments: now.segments, ..before })
                &&& after == (Ir { ops: ir.ops.insert(self.op, now), ..ir })
            }),
    {
        let before = ir.ops[self.op];
        let after = self.forwarding_more(ir, succ_idx, operand);
        let now = after.ops[self.op];
        before.three_starts();
        if succ_idx == 0 {
            assert(now.operands =~= seq![condition] + t.push(operand) + f);
        } else {
            assert(now.operands =~= seq![condition] + t + f.push(operand));
        }
        assert(after.ops =~= ir.ops.insert(self.op, now));
    }

    /// Taking away one of the values that are forwarded to a successor, at whatever position it
    /// is, leaves those before it followed by those after it. The condition, what is forwarded to
    /// the other successor and all else stay.
    pub proof fn takes_one_away(
        self,
        ir: Ir,
        condition: Value,
        t: Seq<Value>,
        f: Seq<Value>,
        succ_idx: int,
        opd_idx: int,
    )
        requires
            ir.ops.contains_key(self.op),
            self.forwards(ir, condition, t, f),
            succ_idx == 0 || succ_idx == 1,
            0 <= opd_idx < (if succ_idx == 0 { t.len() } else { f.len() }),
        ensures
            ({
                let before = ir.ops[self.op];
                let after = self.forwarding_less(ir, succ_idx, opd_idx);
                let now = after.ops[self.op];
                &&& succ_idx == 0 ==> self.forwards(
                    after,
                    condition,
                    t.take(opd_idx) + t.skip(opd_idx + 1),
                    f,
                )
                &&& succ_idx == 1 ==> self.forwards(
                    after,
                    condition,
                    t,
                    f.take(opd_idx) + f.skip(opd_idx + 1),
                )
                &&& now == (OpView { operands: now.operands, segments: now.segments, ..before })
                &&& after == (Ir { ops: ir.ops.insert(self.op, now), ..ir })
            }),
    {
        let before = ir.ops[self.op];
        let after = self.forwarding_less(ir, succ_idx, opd_idx);
        let now = after.ops[self.op];
        before.three_starts();
        if succ_idx == 0 {
            assert(now.operands =~= seq![condition] + (t.take(opd_idx) + t.skip(opd_idx + 1)) + f);
        } else {
            assert(now.operands =~= seq![condition] + t + (f.take(opd_idx) + f.skip(opd_idx + 1)));
        }
        assert(after.ops =~= ir.ops.insert(self.op, now));
    }

    /// What is forwarded to a successor is what stands in its place among the operands.
    pub proof fn forwards_segments(self, ir: Ir, condition: Value, t: Seq<Value>, f: Seq<Value>)
        requires
            self.forwards(ir, condition, t, f),
        ensures
            ir.ops[self.op].has_segment(1),
            ir.ops[self.op].has_segment(2),
            ir.ops[self.op].operands[0] == condition,
            ir.ops[self.op].segment(1) == t,
            ir.ops[self.op].segment(2) == f,
    {
        let view = ir.ops[self.op];
        view.three_starts();
        assert(view.segment(1) =~= t);
        assert(view.segment(2) =~= f);
    }

    /// A new `CondBrOp` has the condition, the successors and the values that it was given, and
    /// nothing else.
    pub proof fn made_of(
        ir: Ir,
        condition: Value,
        true_dest: BlockId,
        t: Seq<Value>,
        false_dest: BlockId,
        f: Seq<Value>,
    )
        requires
            t.len() <= u32::MAX,
            f.len() <= u32::MAX,
        ensures
            ({
                let op = ir.op_at(0);
                let done = ir.with_op(CondBrOp::view(condition, true_dest, t, false_dest, f));
                let view = done.ops[op];
                &&& view.kind is CfCondBr
                &&& (CondBrOp { op }).forwards(done, condition, t, f)
                &&& view.successors.len() == 2
                &&& view.successors[0] == true_dest
                &&& view.successors[1] == false_dest
                &&& view.results.len() == 0
                &&& view.regions.len() == 0
                &&& view.parent is None
                &&& done.made_op(ir, op)
            }),
    {
    }
}

impl Ir {
    /// Has nothing happened to `before` but that the operation `op` was made, the next one?
    pub open spec fn made_op(self, before: Ir, op: OpId) -> bool {
        &&& op == before.op_at(0)
        &&& self == (Ir {
            ops: before.ops.insert(op, self.ops[op]),
            next_op: before.next_op + 1,
            ..before
        })
    }
}

impl BrOp {
    /// A new `BrOp` has the successor and the values that it was given, and nothing else.
    pub proof fn made_of(ir: Ir, dest: BlockId, dest_opds: Seq<Value>)
        ensures
            ({
                let op = ir.op_at(0);
                let done = ir.with_op(BrOp::view(dest, dest_opds));
                let view = done.ops[op];
                &&& view.kind is CfBr
                &&& view.operands == dest_opds
                &&& view.successors.len() == 1
                &&& view.successors[0] == dest
                &&& view.results.len() == 0
                &&& view.regions.len() == 0
                &&& view.parent is None
                &&& done.made_op(ir, op)
            }),
    {
    }
}

} // verus!
