//! The loops that the lowering of a loop over several dimensions leaves are in order.

use crate::cf::ops::{ForOp, NDForOp};
use crate::cf::to_llvm::CFToLLVM;
use crate::ir::model::Ir;
use crate::ir::segments::Segments;
use crate::ir::types::{BlockId, OpId, Value};
use vstd::prelude::*;

verus! {

impl NDForOp {
    /// Is the operation, after the lowering, in loop `i` of the nest?
    spec fn within(self, ir: Ir, i: int, c: OpId) -> bool {
        if ir.ops.contains_key(c) {
            ir.kept(c, self.op) && ir.clear(c, self.op)
        } else {
            &&& self.lowered(ir).ops.contains_key(c)
            &&& self.lowered(ir).ops[c].regions.len() == 0 || exists|j: int|
                0 <= j < i && c == #[trigger] self.loop_op(ir, j)
        }
    }

    /// Can the lowering be looked into?
    spec fn orderly(self, ir: Ir) -> bool {
        &&& ir.wf()
        &&& self.lowerable(ir)
        &&& self.lowered(ir).wf()
        &&& ir.ops[self.op].kind is CfNDFor
        &&& ir.branches_stay()
        &&& ir.used_only_behind(self.op)
    }

    /// What the lowering makes of loop `i`.
    proof fn loop_parts(self, ir: Ir, i: int)
        requires
            self.orderly(ir),
            0 <= i < self.dims(ir),
        ensures
            ({
                let after = self.lowered(ir);
                let c = self.loop_op(ir, i);
                let r = self.loop_region(ir, i);
                let b = self.loop_entry(ir, i);
                &&& after.ops.contains_key(c) && !ir.ops.contains_key(c)
                &&& after.ops[c].kind is CfFor
                &&& after.ops[c].regions == seq![r]
                &&& after.ops[c].results.len() == 0
                &&& after.ops[c].successors.len() == 0
                &&& after.regions.contains_key(r) && !ir.regions.contains_key(r)
                &&& after.blocks.contains_key(b) && !ir.blocks.contains_key(b)
                &&& after.blocks[b].parent == r
                &&& after.blocks[b].args.len() == 1
                &&& after.regions[r].blocks.first() == b
                &&& after.ops[c].parent == Some(
                    if i + 1 == self.dims(ir) {
                        ir.holder(self.op)
                    } else {
                        self.loop_entry(ir, i + 1)
                    },
                )
                &&& after.ops.contains_key(self.loop_yield(ir, i)) && !ir.ops.contains_key(
                    self.loop_yield(ir, i),
                )
                &&& after.ops[self.loop_yield(ir, i)].kind is CfYield
                &&& after.ops[self.loop_yield(ir, i)].operands.len() == 0
                &&& after.ops[self.loop_yield(ir, i)].results.len() == 0
                &&& after.ops[self.loop_yield(ir, i)].regions.len() == 0
                &&& after.ops[self.loop_yield(ir, i)].successors.len() == 0
                &&& if i > 0 {
                    &&& after.regions[r].blocks == seq![b]
                    &&& after.blocks[b].ops == seq![
                        self.loop_op(ir, i - 1),
                        self.loop_yield(ir, i),
                    ]
                } else {
                    &&& after.regions[r].blocks == seq![b] + ir.regions[self.body(ir)].blocks
                    &&& after.blocks[b].ops == seq![self.jump(ir)]
                    &&& after.blocks[self.exit(ir)].ops == ir.blocks[self.exit(
                        ir,
                    )].ops.drop_last().push(self.loop_yield(ir, 0))
                }
            }),
    {
        let after = self.lowered(ir);
        self.bounded(ir);
        assert(after.next_op <= usize::MAX && after.next_block <= usize::MAX && after.next_region
            <= usize::MAX) by {
            reveal(Ir::wf);
        }
        ir.entry_exit_in_range(self.op, 0);
        ir.position_in_range(self.op);
        assert((2 * i) / 2 == i && (2 * i + 1) / 2 == i);
        let y = self.loop_yield(ir, i);
        assert(y == ir.next_op + 2 * i + 1);
        assert((y - ir.next_op) % 2 == 1);
    }

    /// The jump to the body of the given loop leads there, and nothing else.
    proof fn jump_parts(self, ir: Ir)
        requires
            self.orderly(ir),
        ensures
            ({
                let after = self.lowered(ir);
                let c = self.jump(ir);
                &&& after.ops.contains_key(c) && !ir.ops.contains_key(c)
                &&& after.ops[c].kind is LlvmBr
                &&& after.ops[c].regions.len() == 0
                &&& after.ops[c].successors == seq![self.entry(ir)]
            }),
    {
        let after = self.lowered(ir);
        self.bounded(ir);
        assert(after.next_op <= usize::MAX) by {
            reveal(Ir::wf);
        }
    }

    /// What is in a block of loop `i`, after the lowering, is in the loop.
    proof fn within_loop(self, ir: Ir, i: int, b: BlockId, k: int)
        requires
            self.orderly(ir),
            0 <= i < self.dims(ir),
            self.lowered(ir).blocks.contains_key(b),
            self.lowered(ir).blocks[b].parent == self.loop_region(ir, i),
            0 <= k < self.lowered(ir).blocks[b].ops.len(),
        ensures
            b == self.loop_entry(ir, i) || i == 0 && ir.blocks.contains_key(b)
                && ir.blocks[b].parent == self.body(ir),
            self.within(ir, i, self.lowered(ir).blocks[b].ops[k]),
            ({
                let c = self.lowered(ir).blocks[b].ops[k];
                ir.ops.contains_key(c) ==> i == 0 && c == ir.blocks[b].ops[k]
            }),
    {
        let after = self.lowered(ir);
        let way = self.replacement(ir);
        let r = self.loop_region(ir, i);
        let c = after.blocks[b].ops[k];
        self.loop_parts(ir, i);
        self.loop_parts(ir, 0);
        self.jump_parts(ir);
        if i > 0 {
            self.loop_parts(ir, i - 1);
        }
        after.members(r);
        assert(after.regions[r].blocks.contains(b));
        let m = after.regions[r].blocks.index_of(b);
        assert(after.regions[r].blocks[m] == b);
        self.reshaped(ir);
        ir.entry_exit_in_range(self.op, 0);
        if b != self.loop_entry(ir, i) {
            assert(i == 0);
            assert(b == ir.regions[self.body(ir)].blocks[m - 1]);
            ir.block_position_unique(self.body(ir), m - 1);
            ir.origin(after, way, b, k);
            assert(ir.block_reshaped(after, way, b));
            assert(ir.ops[self.op].regions.contains(self.body(ir)));
            if ir.ops.contains_key(c) {
                assert(c == ir.kept_ops(way, b)[k]);
                assert(c == ir.blocks[b].ops[k]);
                assert(ir.clear(ir.blocks[b].ops[k], self.op));
            } else {
                after.position_unique(b, k);
                ir.only_region(self.op);
                if k < ir.kept_ops(way, b).len() {
                    ir.position_unique(b, k);
                }
                assert(c == self.loop_yield(ir, 0));
            }
        } else if i > 0 {
            if k == 0 {
                assert(c == self.loop_op(ir, i - 1));
            }
        }
    }

    /// What is in an operation in loop `i` is in loop `i`.
    proof fn within_inside(self, ir: Ir, i: int, c: OpId, b: BlockId, k: int)
        requires
            self.orderly(ir),
            0 <= i < self.dims(ir),
            self.within(ir, i, c),
            self.lowered(ir).blocks.contains_key(b),
            self.lowered(ir).ops[c].regions.contains(self.lowered(ir).blocks[b].parent),
            0 <= k < self.lowered(ir).blocks[b].ops.len(),
        ensures
            self.within(ir, i, self.lowered(ir).blocks[b].ops[k]),
    {
        let after = self.lowered(ir);
        let way = self.replacement(ir);
        self.reshaped(ir);
        if ir.ops.contains_key(c) {
            let d = after.blocks[b].ops[k];
            ir.was_inside(after, way, c, b, k);
            let held = ir.blocks[ir.holder(self.op)].parent;
            ir.position_in_range(self.op);
            if ir.ops[c].regions.contains(held) {
                ir.clear_inside(c, self.op, ir.holder(self.op), ir.position(self.op));
                assert(ir.clear_to(self.op, self.op, 0));
            }
            ir.position_in_range(d);
            ir.clear_inside(c, self.op, ir.holder(d), ir.position(d));
        } else {
            let j = choose|j: int| 0 <= j < i && c == #[trigger] self.loop_op(ir, j);
            self.loop_parts(ir, j);
            self.within_loop(ir, j, b, k);
            let d = after.blocks[b].ops[k];
            if !ir.ops.contains_key(d) && after.ops[d].regions.len() > 0 {
                let m = choose|m: int| 0 <= m < j && d == #[trigger] self.loop_op(ir, m);
                assert(0 <= m < i && d == self.loop_op(ir, m));
            }
        }
    }

    /// Loop `i` of the nest is not in what is in it.
    proof fn within_clear(self, ir: Ir, i: int, c: OpId, depth: nat)
        requires
            self.orderly(ir),
            0 <= i < self.dims(ir),
            self.within(ir, i, c),
        ensures
            self.lowered(ir).clear_to(c, self.loop_op(ir, i), depth),
        decreases depth,
    {
        let after = self.lowered(ir);
        let way = self.replacement(ir);
        let this = self.loop_op(ir, i);
        self.reshaped(ir);
        self.loop_parts(ir, i);
        assert(after.next_op <= usize::MAX) by {
            reveal(Ir::wf);
        }
        if ir.ops.contains_key(c) {
            assert(ir.same_but_renamed(after, way, c));
        }
        after.operands_there(c);
        assert forall|k: int| 0 <= k < after.ops[c].operands.len() implies !Ir::is_result(
            #[trigger] after.ops[c].operands[k],
            this,
        ) by {
            assert(after.has_value(after.ops[c].operands[k]));
        }
        assert(c != this);
        if depth > 0 {
            let less = (depth - 1) as nat;
            assert forall|b: BlockId, k: int|
                #![trigger after.blocks[b].ops[k]]
                after.blocks.contains_key(b) && after.ops[c].regions.contains(
                    after.blocks[b].parent,
                ) && 0 <= k < after.blocks[b].ops.len() implies after.clear_to(
                after.blocks[b].ops[k],
                this,
                less,
            ) by {
                self.within_inside(ir, i, c, b, k);
                self.within_clear(ir, i, after.blocks[b].ops[k], less);
            }
        }
    }

    /// The induction variable of loop `i` of the nest is not defined by what is in it.
    proof fn within_fixed(self, ir: Ir, i: int, c: OpId, depth: nat)
        requires
            self.orderly(ir),
            0 <= i < self.dims(ir),
            self.within(ir, i, c),
        ensures
            self.lowered(ir).fixed_to(
                c,
                Value::BlockArgument { block: self.loop_entry(ir, i), idx: 0 },
                depth,
            ),
        decreases depth,
    {
        let after = self.lowered(ir);
        let way = self.replacement(ir);
        let iv = Value::BlockArgument { block: self.loop_entry(ir, i), idx: 0 };
        self.reshaped(ir);
        self.loop_parts(ir, i);
        assert(after.next_block <= usize::MAX && after.next_region <= usize::MAX) by {
            reveal(Ir::wf);
        }
        if depth > 0 {
            let less = (depth - 1) as nat;
            assert forall|b: BlockId| #[trigger]
                after.blocks.contains_key(b) && after.ops[c].regions.contains(
                    after.blocks[b].parent,
                ) implies !Ir::is_argument(iv, b) by {
                if ir.ops.contains_key(c) {
                    assert(ir.same_but_renamed(after, way, c));
                    ir.region_there(c, ir.ops[c].regions.index_of(after.blocks[b].parent));
                } else {
                    let j = choose|j: int| 0 <= j < i && c == #[trigger] self.loop_op(ir, j);
                    self.loop_parts(ir, j);
                }
            }
            assert forall|b: BlockId, k: int|
                #![trigger after.blocks[b].ops[k]]
                after.blocks.contains_key(b) && after.ops[c].regions.contains(
                    after.blocks[b].parent,
                ) && 0 <= k < after.blocks[b].ops.len() implies after.fixed_to(
                after.blocks[b].ops[k],
                iv,
                less,
            ) by {
                self.within_inside(ir, i, c, b, k);
                self.within_fixed(ir, i, after.blocks[b].ops[k], less);
            }
        }
    }

    /// Loop `i` of the nest can be lowered, and does not end its block.
    proof fn loop_lowerable(self, ir: Ir, i: int)
        requires
            self.orderly(ir),
            0 <= i < self.dims(ir),
            ir.blocks[ir.holder(self.op)].ops.last() != self.op,
        ensures
            ({
                let after = self.lowered(ir);
                let this = ForOp { op: self.loop_op(ir, i) };
                let d = self.dims(ir) - 1 - i;
                &&& this.lowerable(after)
                &&& after.blocks[after.holder(this.op)].ops.last() != this.op
                &&& this.entry(after) == self.loop_entry(ir, i)
                &&& this.body(after) == self.loop_region(ir, i)
                &&& this.yield_op(after) == self.loop_yield(ir, i)
                &&& this.upper_bound(after) == self.upper_bounds(ir)[d]
                &&& this.step(after) == self.steps(ir)[d]
                &&& i + 1 < self.dims(ir) ==> after.position(this.op) == 0
                &&& i + 1 == self.dims(ir) ==> after.position(this.op) == ir.position(self.op)
            }),
    {
        let after = self.lowered(ir);
        let this = ForOp { op: self.loop_op(ir, i) };
        let view = after.ops[this.op];
        let none: Seq<Value> = Seq::empty();
        self.loop_parts(ir, i);
        self.bounded(ir);
        assert(after.next_op <= usize::MAX && after.next_block <= usize::MAX && after.next_region
            <= usize::MAX) by {
            reveal(Ir::wf);
        }
        ir.entry_exit_in_range(self.op, 0);
        ir.position_in_range(self.op);
        assert((2 * i) / 2 == i);
        assert(view.segments == seq![3u32, 0u32]);
        let groups = seq![view.operands, none];
        Segments::flatten_two(view.operands, none);
        assert(view.operands + none =~= view.operands);
        assert(Segments::sizes(groups) =~= view.segments);
        view.segment_is_group(groups, 0);
        view.segment_is_group(groups, 1);
        assert(view.has_segment(1)) by {
            Segments::flattened_len(groups);
            view.all_segments_there();
        }
        if i + 1 < self.dims(ir) {
            self.loop_parts(ir, i + 1);
            let b = self.loop_entry(ir, i + 1);
            assert(after.blocks[b].ops[0] == this.op);
            after.position_unique(b, 0);
        } else {
            let b = ir.holder(self.op);
            let p = ir.position(self.op);
            assert(after.blocks[b].ops[p] == this.op);
            after.position_unique(b, p);
            let m = ir.blocks[b].ops.len() - 1;
            ir.position_unique(b, m);
            assert(p != m);
            assert(after.blocks[b].ops.last() == ir.blocks[b].ops[m]);
            ir.ordered();
        }
        assert(after.yields_outward(this.op, 0));
    }

    /// What the loop over several dimensions does not define, loop `i` does not.
    proof fn loop_fixed(self, ir: Ir, i: int, v: Value)
        requires
            self.orderly(ir),
            0 <= i < self.dims(ir),
            ir.has_value(v),
            ir.fixed_by(self.op, v),
        ensures
            self.lowered(ir).fixed_in(self.loop_region(ir, i), v),
            !Ir::is_argument(v, self.loop_entry(ir, i)),
    {
        let after = self.lowered(ir);
        let way = self.replacement(ir);
        let r = self.loop_region(ir, i);
        self.reshaped(ir);
        self.loop_parts(ir, i);
        ir.entry_exit_in_range(self.op, 0);
        assert(ir.fixed_to(self.op, v, 0));
        assert(ir.fixed_to(self.op, v, 1));
        assert(Ir::now(way, v) == v);
        assert(ir.ops[self.op].regions.contains(self.body(ir)));
        assert forall|b: BlockId| #[trigger]
            after.blocks.contains_key(b) && after.blocks[b].parent == r && Ir::is_argument(
                v,
                b,
            ) implies !after.targeted_in(r, b) by {
            after.members(r);
            assert(after.regions[r].blocks.contains(b));
            let m = after.regions[r].blocks.index_of(b);
            assert(b != self.loop_entry(ir, i));
            assert(i == 0 && b == ir.regions[self.body(ir)].blocks[m - 1]);
            ir.block_position_unique(self.body(ir), m - 1);
        }
        assert forall|b: BlockId, k: int|
            #![trigger after.blocks[b].ops[k]]
            after.blocks.contains_key(b) && after.blocks[b].parent == r && 0 <= k
                < after.blocks[b].ops.len() implies after.fixed_by(after.blocks[b].ops[k], v) by {
            let c = after.blocks[b].ops[k];
            self.within_loop(ir, i, b, k);
            ir.origin(after, way, b, k);
            if ir.ops.contains_key(c) {
                ir.position_in_range(c);
                assert(ir.holder(c) == b);
                ir.fixed_deeper(self.op, v, b, ir.position(c));
            }
            assert forall|depth: nat| #[trigger] after.fixed_to(c, v, depth) by {
                ir.still_fixed_to(after, way, c, v, depth);
            }
        }
    }

    /// Nothing in loop `i` defines its induction variable.
    proof fn variable_fixed(self, ir: Ir, i: int)
        requires
            self.orderly(ir),
            0 <= i < self.dims(ir),
        ensures
            self.lowered(ir).fixed_in(
                self.loop_region(ir, i),
                Value::BlockArgument { block: self.loop_entry(ir, i), idx: 0 },
            ),
    {
        let after = self.lowered(ir);
        let r = self.loop_region(ir, i);
        let iv = Value::BlockArgument { block: self.loop_entry(ir, i), idx: 0 };
        self.loop_parts(ir, i);
        assert forall|b: BlockId| #[trigger]
            after.blocks.contains_key(b) && after.blocks[b].parent == r && Ir::is_argument(
                iv,
                b,
            ) implies !after.targeted_in(r, b) by {
            assert forall|c: BlockId, k: int|
                #![trigger after.blocks[c].ops[k]]
                after.blocks.contains_key(c) && after.blocks[c].parent == r && 0 <= k
                    < after.blocks[c].ops.len() implies !after.ops[
            after.blocks[c].ops[k]].successors.contains(b) by {
                after.position_unique(c, k);
                self.leads_into(ir, after.blocks[c].ops[k], b);
            }
        }
        assert forall|b: BlockId, k: int|
            #![trigger after.blocks[b].ops[k]]
            after.blocks.contains_key(b) && after.blocks[b].parent == r && 0 <= k
                < after.blocks[b].ops.len() implies after.fixed_by(after.blocks[b].ops[k], iv) by {
            let c = after.blocks[b].ops[k];
            self.within_loop(ir, i, b, k);
            assert forall|depth: nat| #[trigger] after.fixed_to(c, iv, depth) by {
                self.within_fixed(ir, i, c, depth);
            }
        }
    }

    /// Nothing in loop `i` defines its bounds, its step or its induction variable.
    proof fn loop_steady(self, ir: Ir, i: int)
        requires
            self.orderly(ir),
            self.steady(ir),
            0 <= i < self.dims(ir),
            ir.blocks[ir.holder(self.op)].ops.last() != self.op,
        ensures
            (ForOp { op: self.loop_op(ir, i) }).steady(self.lowered(ir)),
    {
        let d = self.dims(ir) - 1 - i;
        let op = ir.ops[self.op];
        self.loop_parts(ir, i);
        self.loop_lowerable(ir, i);
        op.earlier_segment(1, 2);
        op.segment_in_range(1);
        op.segment_in_range(2);
        ir.operands_there(self.op);
        let j = op.segment_start(1) + d;
        let k = op.segment_start(2) + d;
        assert(self.upper_bounds(ir)[d] == op.operands[j]);
        assert(self.steps(ir)[d] == op.operands[k]);
        self.loop_fixed(ir, i, op.operands[j]);
        self.loop_fixed(ir, i, op.operands[k]);
        self.variable_fixed(ir, i);
    }

    /// No operation leads to the start of a loop of the nest.
    proof fn leads_into(self, ir: Ir, c: OpId, b: BlockId)
        requires
            self.orderly(ir),
            self.lowered(ir).ops.contains_key(c),
            !ir.blocks.contains_key(b),
        ensures
            !self.lowered(ir).ops[c].successors.contains(b),
    {
        let after = self.lowered(ir);
        self.bounded(ir);
        assert(after.next_op <= usize::MAX) by {
            reveal(Ir::wf);
        }
        ir.entry_exit_in_range(self.op, 0);
        if ir.ops.contains_key(c) {
            ir.successors_there(c);
            if after.ops[c].successors.contains(b) {
                let j = after.ops[c].successors.index_of(b);
                assert(ir.blocks.contains_key(ir.ops[c].successors[j]));
            }
        }
    }

    /// Loop `i` of the nest is in order, if the loop over several dimensions is.
    pub(crate) proof fn loop_in_order(self, ir: Ir, i: int)
        requires
            ir.wf(),
            self.lowerable(ir),
            self.lowered(ir).wf(),
            ir.ops[self.op].kind is CfNDFor,
            CFToLLVM::well_used(ir, self.op),
            self.types_agree(ir),
            ir.branches_stay(),
            ir.ends_last(self.op),
            0 <= i < self.dims(ir),
        ensures
            CFToLLVM::lowerable(self.lowered(ir), self.loop_op(ir, i)),
            CFToLLVM::well_used(self.lowered(ir), self.loop_op(ir, i)),
            CFToLLVM::types_agree(self.lowered(ir), self.loop_op(ir, i)),
            self.lowered(ir).ends_last(self.loop_op(ir, i)),
    {
        let after = self.lowered(ir);
        let way = self.replacement(ir);
        let this = self.loop_op(ir, i);
        let r = self.loop_region(ir, i);
        self.reshaped(ir);
        self.loop_parts(ir, i);
        self.loop_lowerable(ir, i);
        self.loop_steady(ir, i);
        self.loop_types_agree(ir, i);
        after.operands_there(this);
        assert(after.spares(this, this)) by {
            assert forall|k: int| 0 <= k < after.ops[this].operands.len() implies !Ir::is_result(
                #[trigger] after.ops[this].operands[k],
                this,
            ) by {
                assert(after.has_value(after.ops[this].operands[k]));
            }
        }
        ir.position_in_range(self.op);
        assert forall|k: int| 0 <= k < after.position(this) implies after.clear(
            #[trigger] after.blocks[after.holder(this)].ops[k],
            this,
        ) by {
            let b = ir.holder(self.op);
            let c = after.blocks[b].ops[k];
            assert(i + 1 == self.dims(ir));
            assert(c == ir.blocks[b].ops[k]);
            ir.position_unique(b, k);
            ir.origin(after, way, b, k);
            assert(ir.clear(ir.blocks[b].ops[k], self.op));
            assert forall|depth: nat| #[trigger] after.clear_to(c, this, depth) by {
                self.within_clear(ir, i, c, depth);
            }
        }
        assert forall|b: BlockId, k: int|
            #![trigger after.blocks[b].ops[k]]
            after.blocks.contains_key(b) && after.ops[this].regions.contains(
                after.blocks[b].parent,
            ) && 0 <= k < after.blocks[b].ops.len() implies after.clear(
            after.blocks[b].ops[k],
            this,
        ) by {
            let c = after.blocks[b].ops[k];
            self.within_loop(ir, i, b, k);
            assert forall|depth: nat| #[trigger] after.clear_to(c, this, depth) by {
                self.within_clear(ir, i, c, depth);
            }
        }
        assert forall|m: int, b: BlockId|
            #![trigger after.has_body(this, m), after.blocks[b]]
            after.has_body(this, m) && after.blocks.contains_key(b) && after.blocks[b].parent
                == after.ops[this].regions[m] && b != after.exit(this, m)
                && after.blocks[b].ops.len() > 0 implies !after.ops[
        after.blocks[b].ops.last()].kind.closes() by {
            after.members(r);
            assert(after.regions[r].blocks.contains(b));
            let q = after.regions[r].blocks.index_of(b);
            assert(after.regions[r].blocks[q] == b);
            self.jump_parts(ir);
            assert(i == 0);
            if b != self.loop_entry(ir, 0) {
                ir.entry_exit_in_range(self.op, 0);
                assert(b == ir.regions[self.body(ir)].blocks[q - 1]);
                ir.block_position_unique(self.body(ir), q - 1);
                let n = after.blocks[b].ops.len() - 1;
                ir.origin(after, way, b, n);
                assert(ir.block_reshaped(after, way, b));
                assert(b != self.exit(ir));
                assert(!ir.closing_block(b, self.op));
                assert(after.blocks[b].ops[n] == ir.kept_ops(way, b)[n]);
                ir.position_unique(b, n);
                assert(ir.same_but_renamed(after, way, after.blocks[b].ops[n]));
                assert(ir.has_body(self.op, 0));
                assert(!ir.ops[ir.blocks[b].ops.last()].kind.closes());
            }
        }
    }
}

} // verus!
