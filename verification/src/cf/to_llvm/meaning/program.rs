//! Lowering an operation keeps what the program around it means.

use crate::cf::ops::{BrOp, CondBrOp, ExecuteRegionOp, ForOp, IfOp, NDForOp};
use crate::cf::semantics::State;
use crate::cf::to_llvm::meaning::whole::Replacement;
use crate::cf::to_llvm::CFToLLVM;
use crate::ir::model::{Ir, OpView};
use crate::ir::types::{BlockId, OpId, OpKind, RegionId, Value};
use vstd::prelude::*;

verus! {

impl Ir {
    /// States that agree on all that was there agree on what is no result of the operation.
    pub(crate) proof fn matches_agree(self, way: Replacement, s: State, t: State)
        requires
            self.matches_up(way, s, t),
        ensures
            self.agree(way.op, s, t),
    {
        assert forall|v: Value|
            self.has_value(v) && !Ir::is_result(v, way.op) implies (s.values)(v)
            == #[trigger] (t.values)(v) by {
            assert(self.has_value(v));
        }
    }

    /// States that agree but for the results of an operation without results agree on all that
    /// was there.
    pub(crate) proof fn agree_matches(self, way: Replacement, s: State, t: State)
        requires
            self.agree(way.op, s, t),
            self.ops[way.op].results.len() == 0,
        ensures
            self.matches_up(way, s, t),
    {
        assert forall|v: Value| #[trigger] self.has_value(v) implies (s.values)(v) == (t.values)(
            Ir::substituted(v, way.op, way.block, way.first),
        ) by {
            assert(!Ir::is_result(v, way.op));
        }
    }

    /// The facts about identifiers and parents that the lowerings rely on.
    pub(crate) proof fn ordered(self)
        requires
            self.wf(),
        ensures
            forall|o: OpId| self.ops.contains_key(o) ==> o < self.next_op,
            forall|b: BlockId| self.blocks.contains_key(b) ==> b < self.next_block,
            forall|r: RegionId| self.regions.contains_key(r) ==> r < self.next_region,
            self.next_op <= usize::MAX + 1,
            self.next_block <= usize::MAX + 1,
            self.next_region <= usize::MAX + 1,
            forall|b: BlockId| #[trigger]
                self.blocks.contains_key(b) ==> self.regions.contains_key(self.blocks[b].parent),
            forall|r: RegionId| #[trigger]
                self.regions.contains_key(r) ==> self.ops[self.regions[r].parent].regions.contains(
                    r,
                ),
    {
        reveal(Ir::wf);
    }

    /// Where the blocks of a region get others inserted behind one of them, the first one stays
    /// the first, and the last one the last, unless it is the one behind which others are.
    pub(crate) proof fn inserted_behind(self, b: BlockId, inserted: Seq<BlockId>)
        requires
            self.wf(),
            self.blocks.contains_key(b),
            inserted.len() > 0,
        ensures
            ({
                let blocks = self.regions[self.blocks[b].parent].blocks;
                let i = self.block_position(b) + 1;
                let now = blocks.take(i) + inserted + blocks.skip(i);
                &&& blocks.len() > 0
                &&& now.len() > 0
                &&& now.first() == blocks.first()
                &&& now.last() == if blocks.last() == b {
                    inserted.last()
                } else {
                    blocks.last()
                }
            }),
    {
        let r = self.blocks[b].parent;
        let blocks = self.regions[r].blocks;
        reveal(Ir::wf);
        assert(blocks.contains(b));
        let p = self.block_position(b);
        assert(blocks[p] == b);
        self.block_position_unique(r, blocks.len() - 1);
    }
}

impl ForOp {
    /// What becomes of the loop.
    pub open spec fn replacement(self, ir: Ir) -> Replacement {
        Replacement {
            op: self.op,
            new: self.enter(ir),
            cont: self.after(ir),
            block: self.header(ir),
            first: 1,
        }
    }

    pub(crate) proof fn surrounded(self, ir: Ir)
        requires
            ir.wf(),
            self.lowerable(ir),
            self.lowered(ir).wf(),
            ir.ops[self.op].kind is CfFor,
        ensures
            ir.surrounded(self.lowered(ir), self.replacement(ir)),
            self.after(ir) != self.pre_header(ir),
    {
        let after = self.lowered(ir);
        let way = self.replacement(ir);
        let pre = self.pre_header(ir);
        ir.ordered();
        after.ordered();
        ir.entry_exit_in_range(self.op, 0);
        ir.position_in_range(self.op);
        ir.moved_from_holder(self.op);
        assert(after.next_op <= usize::MAX && after.next_block <= usize::MAX) by {
            reveal(Ir::wf);
        }
        assert forall|o: OpId| #[trigger] ir.outside(o, self.op) implies ir.same_but_renamed(
            after,
            way,
            o,
        ) by {
            assert(self.all_renamed(ir, ir.ops[o].operands) =~= way.stand_ins(ir.ops[o].operands));
        }
        let body = ir.regions[self.body(ir)].blocks;
        let inserted = seq![self.header(ir)] + body + seq![self.after(ir)];
        ir.inserted_behind(pre, inserted);
        let blocks = ir.regions[self.region(ir)].blocks;
        let i = ir.block_position(pre) + 1;
        assert(self.lowered_order(ir) =~= blocks.take(i) + inserted + blocks.skip(i));
        assert forall|r: RegionId| #[trigger]
            ir.regions.contains_key(r) && ir.regions[r].parent == self.op implies r == self.body(
            ir,
        ) by {}
        assert(ir.regions[self.region(ir)].parent != self.op);
        assert forall|b: BlockId| #[trigger]
            ir.blocks.contains_key(b) && ir.regions[ir.blocks[b].parent].parent
                != self.op implies after.blocks.contains_key(b) && after.blocks[b].parent
            == ir.blocks[b].parent && (b != pre ==> after.blocks[b].ops == ir.blocks[b].ops) by {}
        assert forall|r: RegionId| #[trigger]
            ir.regions.contains_key(r) && ir.regions[r].parent != self.op
                && ir.regions[r].blocks.len() > 0 implies after.regions[r].blocks.len() > 0
            && after.regions[r].blocks.first() == ir.regions[r].blocks.first()
            && after.regions[r].blocks.last() == ir.moved_end(
            way,
            ir.regions[r].blocks.last(),
        ) by {
            ir.block_position_unique(r, ir.regions[r].blocks.len() - 1);
        }
        assert(after.blocks[way.cont].ops == ir.blocks[pre].ops.skip(ir.position(self.op) + 1));
    }

    /// What becomes of the loop does what it did.
    pub(crate) proof fn replaced(
        self,
        ir: Ir,
        acts: spec_fn(OpId, Seq<int>, int) -> (Seq<int>, int),
    )
        requires
            ir.wf(),
            self.lowerable(ir),
            self.lowered(ir).wf(),
            ir.ops[self.op].kind is CfFor,
            ir.used_only_behind(self.op),
            self.steady(ir),
            ir.blocks[ir.holder(self.op)].ops.last() != self.op,
        ensures
            ir.replaced_by(self.lowered(ir), self.replacement(ir), acts),
    {
        let way = self.replacement(ir);
        self.surrounded(ir);
        assert forall|s: State, t: State, fuel: nat|
            #![trigger ir.matches_up(way, s, t), ir.ran_through(acts, way.op, s, fuel)]
            ir.matches_up(way, s, t) && ir.ran_through(acts, way.op, s, fuel)
                is Some implies ir.crossed(
            self.lowered(ir),
            way,
            acts,
            ir.ran_through(acts, way.op, s, fuel)->0,
            t,
        ) by {
            ir.matches_agree(way, s, t);
            self.lowering_keeps_meaning(ir, acts, s, t, fuel);
        }
    }
}

impl ExecuteRegionOp {
    /// What becomes of the operation.
    pub open spec fn replacement(self, ir: Ir) -> Replacement {
        Replacement {
            op: self.op,
            new: self.enter(ir),
            cont: self.continuation(ir),
            block: self.continuation(ir),
            first: 0,
        }
    }

    pub(crate) proof fn surrounded(self, ir: Ir)
        requires
            ir.wf(),
            self.lowerable(ir),
            self.lowered(ir).wf(),
            ir.ops[self.op].kind is CfExecuteRegion,
        ensures
            ir.surrounded(self.lowered(ir), self.replacement(ir)),
            self.continuation(ir) != ir.holder(self.op),
    {
        let after = self.lowered(ir);
        let way = self.replacement(ir);
        let pre = ir.holder(self.op);
        let region = ir.blocks[pre].parent;
        ir.ordered();
        after.ordered();
        ir.entry_exit_in_range(self.op, 0);
        ir.position_in_range(self.op);
        assert(after.next_op <= usize::MAX && after.next_block <= usize::MAX) by {
            reveal(Ir::wf);
        }
        assert forall|o: OpId| #[trigger] ir.outside(o, self.op) implies ir.same_but_renamed(
            after,
            way,
            o,
        ) by {
            assert(self.all_renamed(ir, ir.ops[o].operands) =~= way.stand_ins(ir.ops[o].operands));
        }
        let inserted = ir.regions[self.body(ir)].blocks + seq![self.continuation(ir)];
        ir.inserted_behind(pre, inserted);
        let blocks = ir.regions[region].blocks;
        let i = ir.block_position(pre) + 1;
        assert(self.lowered_order(ir) =~= blocks.take(i) + inserted + blocks.skip(i));
        assert forall|r: RegionId| #[trigger]
            ir.regions.contains_key(r) && ir.regions[r].parent == self.op implies r == self.body(
            ir,
        ) by {}
        assert(ir.regions[region].parent != self.op);
        assert forall|b: BlockId| #[trigger]
            ir.blocks.contains_key(b) && ir.regions[ir.blocks[b].parent].parent
                != self.op implies after.blocks.contains_key(b) && after.blocks[b].parent
            == ir.blocks[b].parent && (b != pre ==> after.blocks[b].ops == ir.blocks[b].ops) by {
        }
        assert forall|r: RegionId| #[trigger]
            ir.regions.contains_key(r) && ir.regions[r].parent != self.op
                && ir.regions[r].blocks.len() > 0 implies after.regions[r].blocks.len() > 0
            && after.regions[r].blocks.first() == ir.regions[r].blocks.first()
            && after.regions[r].blocks.last() == ir.moved_end(
            way,
            ir.regions[r].blocks.last(),
        ) by {
            ir.block_position_unique(r, ir.regions[r].blocks.len() - 1);
        }
        assert(after.blocks[way.cont].ops == ir.blocks[pre].ops.skip(ir.position(self.op) + 1));
    }

    /// What becomes of the operation does what it did.
    pub(crate) proof fn replaced(
        self,
        ir: Ir,
        acts: spec_fn(OpId, Seq<int>, int) -> (Seq<int>, int),
    )
        requires
            ir.wf(),
            self.lowerable(ir),
            self.lowered(ir).wf(),
            ir.ops[self.op].kind is CfExecuteRegion,
            ir.used_only_behind(self.op),
            ir.blocks[ir.holder(self.op)].ops.last() != self.op,
        ensures
            ir.replaced_by(self.lowered(ir), self.replacement(ir), acts),
    {
        let way = self.replacement(ir);
        self.surrounded(ir);
        assert forall|s: State, t: State, fuel: nat|
            #![trigger ir.matches_up(way, s, t), ir.ran_through(acts, way.op, s, fuel)]
            ir.matches_up(way, s, t) && ir.ran_through(acts, way.op, s, fuel)
                is Some implies ir.crossed(
            self.lowered(ir),
            way,
            acts,
            ir.ran_through(acts, way.op, s, fuel)->0,
            t,
        ) by {
            ir.matches_agree(way, s, t);
            self.lowering_keeps_meaning(ir, acts, s, t, fuel);
        }
    }
}

impl IfOp {
    /// What becomes of the operation.
    pub open spec fn replacement(self, ir: Ir) -> Replacement {
        Replacement {
            op: self.op,
            new: self.decide(ir),
            cont: self.continuation(ir),
            block: self.continuation(ir),
            first: 0,
        }
    }

    pub(crate) proof fn surrounded(self, ir: Ir)
        requires
            ir.wf(),
            self.lowerable(ir),
            self.lowered(ir).wf(),
            ir.ops[self.op].kind is CfIf,
        ensures
            ir.surrounded(self.lowered(ir), self.replacement(ir)),
            self.continuation(ir) != ir.holder(self.op),
    {
        let after = self.lowered(ir);
        let way = self.replacement(ir);
        let pre = ir.holder(self.op);
        let region = ir.blocks[pre].parent;
        ir.ordered();
        after.ordered();
        self.apart(ir);
        ir.entry_exit_in_range(self.op, 0);
        if self.has_else(ir) {
            ir.entry_exit_in_range(self.op, 1);
        }
        ir.position_in_range(self.op);
        assert(after.next_op <= usize::MAX && after.next_block <= usize::MAX) by {
            reveal(Ir::wf);
        }
        assert forall|o: OpId| #[trigger] ir.outside(o, self.op) implies ir.same_but_renamed(
            after,
            way,
            o,
        ) by {
            assert(self.all_renamed(ir, ir.ops[o].operands) =~= way.stand_ins(ir.ops[o].operands));
        }
        let inserted = self.branch_blocks(ir, 0) + self.branch_blocks(ir, 1) + seq![
            self.continuation(ir),
        ];
        ir.inserted_behind(pre, inserted);
        let blocks = ir.regions[region].blocks;
        let i = ir.block_position(pre) + 1;
        assert(self.lowered_order(ir) =~= blocks.take(i) + inserted + blocks.skip(i));
        assert forall|r: RegionId| #[trigger] ir.ops[self.op].regions.contains(r) implies r
            == self.region(ir, 0) || (self.has_else(ir) && r == self.region(ir, 1)) by {}
        assert(!ir.ops[self.op].regions.contains(region));
        assert(ir.regions[region].parent != self.op);
        assert forall|b: BlockId| #[trigger]
            ir.blocks.contains_key(b) && ir.regions[ir.blocks[b].parent].parent
                != self.op implies after.blocks.contains_key(b) && after.blocks[b].parent
            == ir.blocks[b].parent && (b != pre ==> after.blocks[b].ops == ir.blocks[b].ops) by {
            if ir.ops[self.op].regions.contains(ir.blocks[b].parent) {
                let k = ir.ops[self.op].regions.index_of(ir.blocks[b].parent);
                ir.region_there(self.op, k);
            }
        }
        assert forall|r: RegionId| #[trigger]
            ir.regions.contains_key(r) && ir.regions[r].parent != self.op
                && ir.regions[r].blocks.len() > 0 implies after.regions[r].blocks.len() > 0
            && after.regions[r].blocks.first() == ir.regions[r].blocks.first()
            && after.regions[r].blocks.last() == ir.moved_end(
            way,
            ir.regions[r].blocks.last(),
        ) by {
            ir.block_position_unique(r, ir.regions[r].blocks.len() - 1);
        }
        assert(after.blocks[way.cont].ops == ir.blocks[pre].ops.skip(ir.position(self.op) + 1));
    }

    /// What becomes of the operation does what it did.
    pub(crate) proof fn replaced(
        self,
        ir: Ir,
        acts: spec_fn(OpId, Seq<int>, int) -> (Seq<int>, int),
    )
        requires
            ir.wf(),
            self.lowerable(ir),
            self.lowered(ir).wf(),
            ir.ops[self.op].kind is CfIf,
            ir.used_only_behind(self.op),
            self.has_else(ir) || ir.ops[self.op].results.len() == 0,
            ir.blocks[ir.holder(self.op)].ops.last() != self.op,
        ensures
            ir.replaced_by(self.lowered(ir), self.replacement(ir), acts),
    {
        let way = self.replacement(ir);
        self.surrounded(ir);
        assert forall|s: State, t: State, fuel: nat|
            #![trigger ir.matches_up(way, s, t), ir.ran_through(acts, way.op, s, fuel)]
            ir.matches_up(way, s, t) && ir.ran_through(acts, way.op, s, fuel)
                is Some implies ir.crossed(
            self.lowered(ir),
            way,
            acts,
            ir.ran_through(acts, way.op, s, fuel)->0,
            t,
        ) by {
            ir.matches_agree(way, s, t);
            self.lowering_keeps_meaning(ir, acts, s, t, fuel);
        }
    }
}

impl NDForOp {
    /// What becomes of the loop.
    pub open spec fn replacement(self, ir: Ir) -> Replacement {
        Replacement {
            op: self.op,
            new: self.loop_op(ir, self.dims(ir) - 1),
            cont: ir.holder(self.op),
            block: ir.holder(self.op),
            first: 0,
        }
    }

    pub(crate) proof fn surrounded(self, ir: Ir)
        requires
            ir.wf(),
            self.lowerable(ir),
            self.lowered(ir).wf(),
            ir.ops[self.op].kind is CfNDFor,
        ensures
            ir.surrounded(self.lowered(ir), self.replacement(ir)),
    {
        let after = self.lowered(ir);
        let way = self.replacement(ir);
        let holder = ir.holder(self.op);
        ir.ordered();
        after.ordered();
        ir.entry_exit_in_range(self.op, 0);
        ir.position_in_range(self.op);
        assert(after.next_op <= usize::MAX && after.next_block <= usize::MAX
            && after.next_region <= usize::MAX) by {
            reveal(Ir::wf);
        }
        assert forall|r: RegionId| #[trigger]
            ir.regions.contains_key(r) && ir.regions[r].parent == self.op implies r == self.body(
            ir,
        ) by {}
        assert forall|o: OpId| #[trigger] ir.outside(o, self.op) implies ir.same_but_renamed(
            after,
            way,
            o,
        ) by {
            let operands = ir.ops[o].operands;
            ir.operands_there(o);
            assert forall|i: int| 0 <= i < operands.len() implies Ir::substituted(
                #[trigger] operands[i],
                way.op,
                way.block,
                way.first,
            ) == operands[i] by {
                assert(ir.has_value(operands[i]));
            }
            assert(way.stand_ins(operands) =~= operands);
        }
        assert forall|b: BlockId| #[trigger]
            ir.blocks.contains_key(b) && ir.regions[ir.blocks[b].parent].parent
                != self.op implies after.blocks.contains_key(b) && after.blocks[b].parent
            == ir.blocks[b].parent && (b != holder ==> after.blocks[b].ops == ir.blocks[b].ops) by {}
        assert(after.blocks[holder].ops == ir.blocks[holder].ops.update(
            ir.position(self.op),
            way.new,
        ));
    }

    /// What becomes of the loop does what it did.
    pub(crate) proof fn replaced(
        self,
        ir: Ir,
        acts: spec_fn(OpId, Seq<int>, int) -> (Seq<int>, int),
    )
        requires
            ir.wf(),
            self.lowerable(ir),
            self.lowered(ir).wf(),
            ir.ops[self.op].kind is CfNDFor,
            ir.used_only_behind(self.op),
            self.steady(ir),
            ir.blocks[ir.holder(self.op)].ops.last() != self.op,
        ensures
            ir.replaced_by(self.lowered(ir), self.replacement(ir), acts),
    {
        let after = self.lowered(ir);
        let way = self.replacement(ir);
        let holder = ir.holder(self.op);
        let p = ir.position(self.op);
        self.surrounded(ir);
        ir.position_in_range(self.op);
        after.position_unique(holder, p);
        let first = ir.blocks[holder].ops.take(p);
        assert(after.blocks[holder].ops.take(p + 1) =~= first.push(way.new));
        assert forall|s: State, t: State, fuel: nat|
            #![trigger ir.matches_up(way, s, t), ir.ran_through(acts, way.op, s, fuel)]
            ir.matches_up(way, s, t) && ir.ran_through(acts, way.op, s, fuel)
                is Some implies ir.crossed(
            after,
            way,
            acts,
            ir.ran_through(acts, way.op, s, fuel)->0,
            t,
        ) by {
            let done = ir.ran_through(acts, way.op, s, fuel)->0;
            ir.matches_agree(way, s, t);
            self.lowering_keeps_meaning(ir, acts, s, t, fuel);
            let f = choose|f: nat|
                {
                    let u = #[trigger] after.ran_through(acts, way.new, t, f);
                    u is Some && ir.agree(self.op, done, u->0)
                };
            let u = after.ran_all(acts, first.push(way.new), t, f);
            assert(u == after.ran_through(acts, way.new, t, f));
            ir.agree_matches(way, done, u->0);
        }
    }
}

impl Ir {
    /// What becomes of a branch that is swapped for another.
    pub open spec fn swap(self, op: OpId) -> Replacement {
        Replacement {
            op,
            new: self.op_at(0),
            cont: self.holder(op),
            block: self.holder(op),
            first: 0,
        }
    }

    /// A branch that is swapped for one that leads to the same places does what it did.
    pub(crate) proof fn swap_replaced(
        self,
        op: OpId,
        view: OpView,
        acts: spec_fn(OpId, Seq<int>, int) -> (Seq<int>, int),
    )
        requires
            self.wf(),
            self.swappable(op),
            self.next_op < usize::MAX,
            self.blocks[self.holder(op)].ops.last() == op,
            self.ops[op].kind is CfBr || self.ops[op].kind is CfCondBr,
            view.kind is LlvmBr || view.kind is LlvmCondBr,
            forall|t: State| #[trigger]
                self.led(acts, op, t) == self.swapped(op, view).led(acts, self.op_at(0), t),
        ensures
            self.replaced_by(self.swapped(op, view), self.swap(op), acts),
    {
        let after = self.swapped(op, view);
        let way = self.swap(op);
        let holder = self.holder(op);
        self.ordered();
        self.position_in_range(op);
        assert(self.regions[self.blocks[holder].parent].parent != op) by {
            let r = self.blocks[holder].parent;
            assert(self.ops[self.regions[r].parent].regions.contains(r));
        }
        assert forall|o: OpId| #[trigger] self.outside(o, op) implies self.same_but_renamed(
            after,
            way,
            o,
        ) by {
            let operands = self.ops[o].operands;
            self.operands_there(o);
            assert forall|i: int| 0 <= i < operands.len() implies Ir::substituted(
                #[trigger] operands[i],
                way.op,
                way.block,
                way.first,
            ) == operands[i] by {
                assert(self.has_value(operands[i]));
            }
            assert(way.stand_ins(operands) =~= operands);
        }
        assert(self.surrounded(after, way));
        assert forall|s: State, t: State| #[trigger]
            self.matches_up(way, s, t) && self.led(acts, op, s) is Some implies after.led(
            acts,
            way.new,
            t,
        ) is Some && after.led(acts, way.new, t)->0.block == self.led(acts, op, s)->0.block
            && self.matches_up(
            way,
            self.led(acts, op, s)->0.state,
            after.led(acts, way.new, t)->0.state,
        ) by {
            assert(self.led(acts, op, t) == after.led(acts, way.new, t));
            self.matches_agree(way, s, t);
            self.operands_there(op);
            assert forall|i: int| 0 <= i < self.ops[op].operands.len() implies !Ir::is_result(
                #[trigger] self.ops[op].operands[i],
                op,
            ) by {
                assert(self.has_value(self.ops[op].operands[i]));
            }
            self.led_alike(self, acts, op, op, s, t);
            self.agree_matches(way, self.led(acts, op, s)->0.state, self.led(acts, op, t)->0.state);
        }
    }
}

impl BrOp {
    /// The new branch leads to where the branch led.
    pub(crate) proof fn led_kept(
        self,
        ir: Ir,
        acts: spec_fn(OpId, Seq<int>, int) -> (Seq<int>, int),
        s: State,
    )
        requires
            ir.wf(),
            self.lowerable(ir),
            self.lowered(ir).wf(),
            ir.ops[self.op].kind is CfBr,
        ensures
            ir.led(acts, self.op, s) == self.lowered(ir).led(acts, ir.op_at(0), s),
    {
        assert(self.lowered(ir).next_op <= usize::MAX) by {
            reveal(Ir::wf);
        }
    }

    pub(crate) proof fn replaced(
        self,
        ir: Ir,
        acts: spec_fn(OpId, Seq<int>, int) -> (Seq<int>, int),
    )
        requires
            ir.wf(),
            self.lowerable(ir),
            self.lowered(ir).wf(),
            ir.ops[self.op].kind is CfBr,
            ir.blocks[ir.holder(self.op)].ops.last() == self.op,
        ensures
            ir.replaced_by(self.lowered(ir), ir.swap(self.op), acts),
    {
        assert(self.lowered(ir).next_op <= usize::MAX) by {
            reveal(Ir::wf);
        }
        let op = ir.ops[self.op];
        ir.swap_replaced(self.op, OpView::llvm_br(op.successors[0], op.operands), acts);
    }
}

impl CondBrOp {
    /// The new branch leads to where the branch led.
    pub(crate) proof fn led_kept(
        self,
        ir: Ir,
        acts: spec_fn(OpId, Seq<int>, int) -> (Seq<int>, int),
        s: State,
    )
        requires
            ir.wf(),
            self.lowerable(ir),
            self.lowered(ir).wf(),
            ir.ops[self.op].kind is CfCondBr,
        ensures
            ir.led(acts, self.op, s) == self.lowered(ir).led(acts, ir.op_at(0), s),
    {
        assert(self.lowered(ir).next_op <= usize::MAX) by {
            reveal(Ir::wf);
        }
        let op = ir.ops[self.op];
        op.earlier_segment(1, 2);
        op.segment_in_range(1);
        op.segment_in_range(2);
        Ir::cond_br_parts(
            op.operands[0],
            op.successors[0],
            op.segment(1),
            op.successors[1],
            op.segment(2),
        );
        let new = self.lowered(ir).ops[ir.op_at(0)];
        assert(new.segment(1) == op.segment(1));
        assert(new.segment(2) == op.segment(2));
        assert(new.has_segment(2));
        assert(new.operands[0] == op.operands[0]);
    }

    pub(crate) proof fn replaced(
        self,
        ir: Ir,
        acts: spec_fn(OpId, Seq<int>, int) -> (Seq<int>, int),
    )
        requires
            ir.wf(),
            self.lowerable(ir),
            self.lowered(ir).wf(),
            ir.ops[self.op].kind is CfCondBr,
            ir.blocks[ir.holder(self.op)].ops.last() == self.op,
        ensures
            ir.replaced_by(self.lowered(ir), ir.swap(self.op), acts),
    {
        assert(self.lowered(ir).next_op <= usize::MAX) by {
            reveal(Ir::wf);
        }
        let op = ir.ops[self.op];
        op.earlier_segment(1, 2);
        op.segment_in_range(1);
        op.segment_in_range(2);
        Ir::cond_br_parts(
            op.operands[0],
            op.successors[0],
            op.segment(1),
            op.successors[1],
            op.segment(2),
        );
        let view = OpView::llvm_cond_br(
            op.operands[0],
            op.successors[0],
            op.segment(1),
            op.successors[1],
            op.segment(2),
        );
        let new = self.lowered(ir).ops[ir.op_at(0)];
        assert(new.segment(1) == op.segment(1));
        assert(new.segment(2) == op.segment(2));
        assert(new.has_segment(2));
        assert(new.operands[0] == op.operands[0]);
        ir.swap_replaced(self.op, view, acts);
    }
}

impl CFToLLVM {
    /// Is the operation where it belongs? A branch ends its block, and any other operation of
    /// control flow does not; the results of that are used only behind it; the bounds and the
    /// steps of a loop stay what they are while it runs; a choice with results has an `else`.
    pub open spec fn well_used(ir: Ir, op: OpId) -> bool {
        let ends = ir.blocks[ir.holder(op)].ops.last() == op;
        match ir.ops[op].kind {
            OpKind::CfBr | OpKind::CfCondBr => ends,
            OpKind::CfFor => !ends && ir.used_only_behind(op) && (ForOp { op }).steady(ir),
            OpKind::CfNDFor => !ends && ir.used_only_behind(op) && (NDForOp { op }).steady(ir),
            OpKind::CfExecuteRegion => !ends && ir.used_only_behind(op),
            OpKind::CfIf => !ends && ir.used_only_behind(op) && ((IfOp { op }).has_else(ir)
                || ir.ops[op].results.len() == 0),
            _ => false,
        }
    }

    /// What becomes of the operation.
    pub open spec fn replacement(ir: Ir, op: OpId) -> Replacement {
        match ir.ops[op].kind {
            OpKind::CfFor => (ForOp { op }).replacement(ir),
            OpKind::CfNDFor => (NDForOp { op }).replacement(ir),
            OpKind::CfExecuteRegion => (ExecuteRegionOp { op }).replacement(ir),
            OpKind::CfIf => (IfOp { op }).replacement(ir),
            _ => ir.swap(op),
        }
    }

    /// Lowering one operation keeps what the program around it means. Take a region that is not
    /// one of the operation, such as the body of the function that it is in. If a run of that
    /// region, from its start, comes to an end, then, after the lowering, from a state that
    /// agrees, it does so too: in a state that agrees, at the same operation, which is handed
    /// the same numbers.
    pub proof fn lowering_keeps_meaning(
        ir: Ir,
        op: OpId,
        acts: spec_fn(OpId, Seq<int>, int) -> (Seq<int>, int),
        o: OpId,
        i: int,
        s: State,
        t: State,
        fuel: nat,
    )
        requires
            ir.wf(),
            ir.ops.contains_key(op),
            CFToLLVM::lowerable(ir, op),
            CFToLLVM::lowered(ir, op).wf(),
            CFToLLVM::well_used(ir, op),
            ir.outside(o, op),
            ir.has_body(o, i),
            ir.matches_up(CFToLLVM::replacement(ir, op), s, t),
            ir.ran_region(acts, ir.ops[o].regions[i], ir.entry(o, i), s, fuel) is Some,
        ensures
            exists|f: nat|
                ir.same_end(
                    CFToLLVM::lowered(ir, op),
                    CFToLLVM::replacement(ir, op),
                    ir.ran_region(acts, ir.ops[o].regions[i], ir.entry(o, i), s, fuel)->0,
                    #[trigger] CFToLLVM::lowered(ir, op).ran_region(
                        acts,
                        ir.ops[o].regions[i],
                        CFToLLVM::lowered(ir, op).entry(o, i),
                        t,
                        f,
                    ),
                ),
    {
        let after = CFToLLVM::lowered(ir, op);
        let way = CFToLLVM::replacement(ir, op);
        match ir.ops[op].kind {
            OpKind::CfBr => {
                (BrOp { op }).replaced(ir, acts);
            },
            OpKind::CfCondBr => {
                (CondBrOp { op }).replaced(ir, acts);
            },
            OpKind::CfFor => {
                (ForOp { op }).replaced(ir, acts);
            },
            OpKind::CfNDFor => {
                (NDForOp { op }).replaced(ir, acts);
            },
            OpKind::CfExecuteRegion => {
                (ExecuteRegionOp { op }).replaced(ir, acts);
            },
            OpKind::CfIf => {
                (IfOp { op }).replaced(ir, acts);
            },
            _ => {},
        }
        ir.run_matches(after, way, acts, o, i, s, t, fuel);
    }
}

} // verus!
