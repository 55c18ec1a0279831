//! What a lowering puts where: the blocks that it makes, what they are called and what they take,
//! in which order the blocks stand, and what becomes of all that was there before.

use crate::cf::ops::{BrOp, CondBrOp, ExecuteRegionOp, ForOp, IfOp, NDForOp};
use crate::ir::model::{BlockView, Ir, OpView};
use crate::ir::types::{
    BlockId, ICmpPredicate, Location, OpId, OpKind, OverflowFlags, RegionId, Signedness, Type, Value,
};
use vstd::prelude::*;

verus! {

impl Ir {
    /// Is `later` what `v` is called once the results of `op` are arguments of `block`, from the
    /// one at `first` on? All other values keep their names.
    pub open spec fn stands_for(v: Value, later: Value, op: OpId, block: BlockId, first: int) -> bool {
        if v is OpResult && v->op == op {
            &&& later is BlockArgument
            &&& later->block == block
            &&& later->BlockArgument_idx == v->OpResult_idx + first
        } else {
            later == v
        }
    }

    /// Are these the same values, with arguments of `block` in place of the results of `op`?
    pub open spec fn stand_for(
        values: Seq<Value>,
        later: Seq<Value>,
        op: OpId,
        block: BlockId,
        first: int,
    ) -> bool {
        &&& values.len() == later.len()
        &&& forall|i: int|
            0 <= i < values.len() ==> Ir::stands_for(
                values[i],
                #[trigger] later[i],
                op,
                block,
                first,
            )
    }

    /// Is the operation `o` still what it was, with arguments of `block` in place of the results of
    /// `op` among its operands, and in the block `parent`?
    pub open spec fn op_kept(
        self,
        later: Ir,
        o: OpId,
        parent: Option<BlockId>,
        op: OpId,
        block: BlockId,
        first: int,
    ) -> bool {
        let before = self.ops[o];
        let now = later.ops[o];
        &&& later.ops.contains_key(o)
        &&& now.kind == before.kind
        &&& now.results == before.results
        &&& now.successors == before.successors
        &&& now.regions == before.regions
        &&& now.segments == before.segments
        &&& now.loc == before.loc
        &&& now.parent == parent
        &&& Ir::stand_for(before.operands, now.operands, op, block, first)
    }

    /// Is this operation in the given block, with no location of its own, and without regions?
    pub open spec fn made_in(self, o: OpId, holder: BlockId) -> bool {
        &&& self.ops.contains_key(o)
        &&& self.ops[o].parent == Some(holder)
        &&& self.ops[o].loc == Location::Unknown
        &&& self.ops[o].regions.len() == 0
    }

    /// Is this operation a new branch in the given block, with no location of its own?
    pub open spec fn branches_to(self, o: OpId, holder: BlockId, dest: BlockId) -> bool {
        let view = self.ops[o];
        &&& self.made_in(o, holder)
        &&& view.kind is LlvmBr
        &&& view.successors == seq![dest]
        &&& view.results.len() == 0
        &&& view.segments.len() == 0
    }
}

impl ForOp {
    /// Lowering a loop leaves, in the region that held it and in this order: the block that held
    /// it, with what came before it and a branch to the header; the header, which takes the
    /// induction variable and the loop-carried variables, named after the results, compares the
    /// one with the upper bound and goes on with the body or behind the loop; the body, which
    /// ends by adding the step and going back to the header; and a block with what came after
    /// the loop.
    pub proof fn lowering_lays_out(self, ir: Ir)
        requires
            ir.wf(),
            self.lowerable(ir),
            self.lowered(ir).wf(),
        ensures
            ({
                let later = self.lowered(ir);
                let op = ir.ops[self.op];
                let pre = op.parent->0;
                let region = ir.blocks[pre].parent;
                let blocks = ir.regions[region].blocks;
                let p = blocks.index_of(pre) + 1;
                let k = ir.blocks[pre].ops.index_of(self.op);
                let body = ir.regions[op.regions[0]].blocks;
                let (entry, exit) = (body[0], body[body.len() - 1]);
                let after = ir.next_block as BlockId;
                let header = (ir.next_block + 1) as BlockId;
                let compare = ir.next_op as OpId;
                let decide = (ir.next_op + 1) as OpId;
                let enter = (ir.next_op + 2) as OpId;
                let advance = (ir.next_op + 3) as OpId;
                let repeat = (ir.next_op + 4) as OpId;
                let n = op.segments[1] as int;
                let s = op.segments[0] as int;
                let ends = ir.blocks[exit].ops;
                let y = ir.ops[ends[ends.len() - 1]];
                let args = later.blocks[header].args;
                // The order of the blocks, and what is in them.
                &&& later.regions[region].blocks == blocks.take(p) + seq![header] + body + seq![after]
                    + blocks.skip(p)
                &&& later.blocks[pre] == (BlockView {
                    ops: ir.blocks[pre].ops.take(k) + seq![enter],
                    ..ir.blocks[pre]
                })
                &&& later.blocks[header].ops == seq![compare, decide]
                &&& later.blocks[header].label == Some("for_op_header"@)
                &&& later.blocks[header].loc == op.loc
                &&& later.blocks[header].parent == region
                &&& later.blocks[after].ops == ir.blocks[pre].ops.skip(k + 1)
                &&& later.blocks[after].args.len() == 0
                &&& later.blocks[after].loc == Location::Unknown
                &&& later.blocks[after].parent == region
                &&& later.blocks[after].label is Some <==> ir.blocks[pre].label is Some
                &&& ir.blocks[pre].label is Some ==> later.blocks[after].label->0 == ir.blocks[
                pre].label->0 + "_split"@
                &&& later.blocks[exit].ops == ends.drop_last() + seq![advance, repeat]
                &&& later.blocks[entry].args.len() == ir.blocks[entry].args.len()
                &&& later.blocks[entry].args.skip(1) == ir.blocks[entry].args.skip(1)
                &&& later.blocks[entry].args[0].name == ir.blocks[entry].args[0].name
                &&& later.blocks[entry].args[0].ty == (Type::Integer {
                    width: 64,
                    signedness: Signedness::Signless,
                })
                // The variables of the loop.
                &&& args.len() == n + 1
                &&& args[0].ty == (Type::Integer { width: 64, signedness: Signedness::Signless })
                &&& args[0].name is None
                &&& forall|i: int|
                    0 <= i < n ==> (#[trigger] args[i + 1]).name == op.results[i].name && (
                    op.operands[s + i] != (Value::BlockArgument { block: entry, idx: 0 })
                        ==> args[i + 1].ty == ir.def(op.operands[s + i]).ty)
                // The operations that are made.
                &&& later.made_in(compare, header)
                &&& later.ops[compare].successors.len() == 0
                &&& later.ops[compare].kind == OpKind::LlvmICmp(ICmpPredicate::ULT)
                &&& later.ops[compare].operands.len() == 2
                &&& later.ops[compare].operands[0] == (Value::BlockArgument {
                    block: header,
                    idx: 0,
                })
                &&& Ir::stands_for(
                    op.operands[1],
                    later.ops[compare].operands[1],
                    self.op,
                    header,
                    1,
                )
                &&& later.ops[compare].results.len() == 1
                &&& later.ops[compare].results[0].ty == (Type::Integer {
                    width: 1,
                    signedness: Signedness::Signless,
                })
                &&& later.made_in(decide, header)
                &&& later.ops[decide].results.len() == 0
                &&& later.ops[decide].segments == seq![1u32, (n + 1) as u32, 0u32]
                &&& later.ops[decide].kind is LlvmCondBr
                &&& later.ops[decide].successors == seq![entry, after]
                &&& later.ops[decide].operands.len() == n + 2
                &&& later.ops[decide].operands[0] == (Value::OpResult { op: compare, idx: 0 })
                &&& forall|i: int|
                    0 <= i <= n ==> #[trigger] later.ops[decide].operands[i + 1] == (
                    Value::BlockArgument { block: header, idx: i as usize })
                &&& later.branches_to(enter, pre, header)
                &&& Ir::stand_for(
                    seq![op.operands[0]] + op.operands.subrange(s, s + n),
                    later.ops[enter].operands,
                    self.op,
                    header,
                    1,
                )
                &&& later.made_in(advance, exit)
                &&& later.ops[advance].successors.len() == 0
                &&& later.ops[advance].kind == OpKind::LlvmAdd(
                    OverflowFlags { nsw: false, nuw: false },
                )
                &&& later.ops[advance].operands.len() == 2
                &&& later.ops[advance].operands[0] == (Value::BlockArgument {
                    block: entry,
                    idx: 0,
                })
                &&& Ir::stands_for(
                    op.operands[2],
                    later.ops[advance].operands[1],
                    self.op,
                    header,
                    1,
                )
                &&& later.ops[advance].results.len() == 1
                &&& later.ops[advance].results[0].ty == (Type::Integer {
                    width: 64,
                    signedness: Signedness::Signless,
                })
                &&& later.branches_to(repeat, exit, header)
                &&& later.ops[repeat].operands.len() == y.operands.len() + 1
                &&& later.ops[repeat].operands[0] == (Value::OpResult { op: advance, idx: 0 })
                &&& Ir::stand_for(
                    y.operands,
                    later.ops[repeat].operands.skip(1),
                    self.op,
                    header,
                    1,
                )
            }),
    {
        let later = self.lowered(ir);
        let op = ir.ops[self.op];
        self.lowering_ids(ir);
        let y = ir.ops[self.yield_op(ir)];
        let pre = op.parent->0;
        let k = ir.blocks[pre].ops.index_of(self.op);
        op.earlier_segment(0, 1);
        op.segment_in_range(0);
        op.segment_in_range(1);
        assert(op.segments.take(0).len() == 0);
        assert(op.segment_start(0) == 0);
        assert(op.segment_start(1) == op.segments[0]);
        assert(later.ops[(ir.next_op + 2) as OpId].operands =~= self.all_renamed(
            ir,
            seq![op.operands[0]] + self.iter_args_init(ir),
        ));
        assert(later.ops[(ir.next_op + 4) as OpId].operands.skip(1) =~= self.all_renamed(
            ir,
            y.operands,
        ));
        let repeat = later.ops[(ir.next_op + 4) as OpId].operands;
        assert(repeat[0] == (Value::OpResult { op: self.advance(ir), idx: 0 }));
        assert(later.blocks[pre].ops =~= ir.blocks[pre].ops.take(k) + seq![self.enter(ir)]);
        let entry = self.entry(ir);
        assert(later.blocks[entry].args.skip(1) =~= ir.blocks[entry].args.skip(1));
        ir.operands_there(self.op);
        ir.operands_there(self.yield_op(ir));
        let decide = later.ops[(ir.next_op + 1) as OpId];
        let n = op.segments[1] as int;
        assert forall|i: int| 0 <= i <= n implies #[trigger] decide.operands[i + 1] == (
        Value::BlockArgument { block: self.header(ir), idx: i as usize }) by {}
    }

    /// The identifiers that are handed out in a lowering are new.
    proof fn lowering_ids(self, ir: Ir)
        requires
            ir.wf(),
            self.lowerable(ir),
            self.lowered(ir).wf(),
        ensures
            ir.next_op + 5 <= usize::MAX,
            ir.next_block + 2 <= usize::MAX,
            forall|o: OpId| ir.ops.contains_key(o) ==> o < ir.next_op,
            forall|b: BlockId| ir.blocks.contains_key(b) ==> b < ir.next_block,
            ir.blocks.contains_key(ir.ops[self.op].parent->0),
            ir.blocks.contains_key(self.entry(ir)),
            ir.blocks.contains_key(self.exit(ir)),
            ir.ops.contains_key(self.yield_op(ir)),
            ir.ops[self.op].parent->0 != self.exit(ir),
            ir.ops[self.op].parent->0 != self.entry(ir),
            self.entry(ir) == ir.regions[ir.ops[self.op].regions[0]].blocks[0],
            ir.regions[ir.ops[self.op].regions[0]].blocks.len() > 0,
            ir.ops[self.op].operands.len() >= 3,
    {
        reveal(Ir::wf);
        ir.entry_exit_in_range(self.op, 0);
        ir.position_in_range(self.op);
        ir.ops[self.op].earlier_segment(0, 1);
        ir.ops[self.op].segment_in_range(0);
    }

    /// Lowering a loop keeps every other operation but the `yield` of the loop as it was, with the
    /// arguments of the header in place of the results of the loop. What came after the loop is in
    /// the last of the blocks that are made.
    pub proof fn lowering_keeps_ops(self, ir: Ir, o: OpId)
        requires
            ir.wf(),
            self.lowerable(ir),
            self.lowered(ir).wf(),
            ir.ops.contains_key(o),
        ensures
            ({
                let later = self.lowered(ir);
                let pre = ir.ops[self.op].parent->0;
                let body = ir.regions[ir.ops[self.op].regions[0]].blocks;
                let ends = ir.blocks[body[body.len() - 1]].ops;
                let k = ir.blocks[pre].ops.index_of(self.op);
                let header = (ir.next_block + 1) as BlockId;
                let moved = ir.blocks[pre].ops.skip(k + 1).contains(o);
                let gone = o == self.op || o == ends[ends.len() - 1];
                &&& later.ops.contains_key(o) <==> !gone
                &&& !gone ==> ir.op_kept(
                    later,
                    o,
                    if moved { Some(ir.next_block as BlockId) } else { ir.ops[o].parent },
                    self.op,
                    header,
                    1,
                )
            }),
    {
        self.lowering_ids(ir);
        ir.operands_there(o);
        let later = self.lowered(ir);
        if later.ops.contains_key(o) {
            assert forall|i: int| 0 <= i < ir.ops[o].operands.len() implies Ir::stands_for(
                ir.ops[o].operands[i],
                #[trigger] later.ops[o].operands[i],
                self.op,
                self.header(ir),
                1,
            ) by {
                assert(ir.has_value(ir.ops[o].operands[i]));
            }
        }
    }

    /// Lowering a loop keeps every block, and what it is called and where it is located. The blocks
    /// of the body go to the region that held the loop, the others stay in theirs. The body is the
    /// only region that goes, and all other regions but the one that held the loop stay as they
    /// were.
    pub proof fn lowering_keeps_blocks(self, ir: Ir, b: BlockId)
        requires
            ir.wf(),
            self.lowerable(ir),
            self.lowered(ir).wf(),
            ir.blocks.contains_key(b),
        ensures
            ({
                let later = self.lowered(ir);
                let pre = ir.ops[self.op].parent->0;
                let region = ir.blocks[pre].parent;
                let body = ir.ops[self.op].regions[0];
                let inner = ir.regions[body].blocks;
                let (before, now) = (ir.blocks[b], later.blocks[b]);
                &&& later.blocks.contains_key(b)
                &&& now.label == before.label
                &&& now.loc == before.loc
                &&& now.parent == (if before.parent == body { region } else { before.parent })
                &&& b != inner[0] ==> now.args == before.args
                &&& b != pre && b != inner[inner.len() - 1] ==> now.ops == before.ops
                &&& forall|r: RegionId|
                    #[trigger] later.regions.contains_key(r) <==> ir.regions.contains_key(r) && r
                        != body
                &&& forall|r: RegionId|
                    ir.regions.contains_key(r) && r != body && r != region
                        ==> #[trigger] later.regions[r] == ir.regions[r]
                &&& later.regions[region].parent == ir.regions[region].parent
                &&& forall|c: BlockId|
                    #[trigger] later.blocks.contains_key(c) <==> ir.blocks.contains_key(c) || c
                        == ir.next_block || c == ir.next_block + 1
                &&& later.next_op == ir.next_op + 5
                &&& later.next_block == ir.next_block + 2
                &&& later.next_region == ir.next_region
            }),
    {
        self.lowering_ids(ir);
        let region = ir.blocks[ir.ops[self.op].parent->0].parent;
        assert(ir.regions.contains_key(region)) by {
            reveal(Ir::wf);
        }
        assert(region != ir.ops[self.op].regions[0]);
    }
}

impl ExecuteRegionOp {
    /// Lowering an operation that runs a region leaves, in the region that held it and in this
    /// order: the block that held it, with what came before it and a branch into the region; the
    /// blocks of the region, which end by branching on with what they yielded; and a block that
    /// takes the results, with their types and names, and holds what came after the operation.
    pub proof fn lowering_lays_out(self, ir: Ir)
        requires
            ir.wf(),
            self.lowerable(ir),
            self.lowered(ir).wf(),
        ensures
            ({
                let later = self.lowered(ir);
                let op = ir.ops[self.op];
                let pre = op.parent->0;
                let region = ir.blocks[pre].parent;
                let blocks = ir.regions[region].blocks;
                let p = blocks.index_of(pre) + 1;
                let k = ir.blocks[pre].ops.index_of(self.op);
                let body = ir.regions[op.regions[0]].blocks;
                let (entry, exit) = (body[0], body[body.len() - 1]);
                let cont = ir.next_block as BlockId;
                let leave = ir.next_op as OpId;
                let enter = (ir.next_op + 1) as OpId;
                let ends = ir.blocks[exit].ops;
                let y = ir.ops[ends[ends.len() - 1]];
                &&& later.regions[region].blocks == blocks.take(p) + body + seq![cont]
                    + blocks.skip(p)
                &&& later.blocks[pre] == (BlockView {
                    ops: ir.blocks[pre].ops.take(k) + seq![enter],
                    ..ir.blocks[pre]
                })
                &&& later.blocks[exit].ops == ends.drop_last() + seq![leave]
                &&& later.blocks[cont].ops == ir.blocks[pre].ops.skip(k + 1)
                &&& later.blocks[cont].args == op.results
                &&& later.blocks[cont].label is None
                &&& later.blocks[cont].loc == Location::Unknown
                &&& later.blocks[cont].parent == region
                &&& later.branches_to(enter, pre, entry)
                &&& later.ops[enter].operands.len() == 0
                &&& later.branches_to(leave, exit, cont)
                &&& Ir::stand_for(y.operands, later.ops[leave].operands, self.op, cont, 0)
            }),
    {
        let later = self.lowered(ir);
        self.lowering_ids(ir);
        let pre = ir.ops[self.op].parent->0;
        let k = ir.blocks[pre].ops.index_of(self.op);
        let exit = self.exit(ir);
        assert(later.blocks[pre].ops =~= ir.blocks[pre].ops.take(k) + seq![self.enter(ir)]);
        assert(later.blocks[exit].ops =~= ir.blocks[exit].ops.drop_last() + seq![self.leave(ir)]);
        ir.operands_there(self.yield_op(ir));
    }

    /// The identifiers that are handed out in a lowering are new.
    proof fn lowering_ids(self, ir: Ir)
        requires
            ir.wf(),
            self.lowerable(ir),
            self.lowered(ir).wf(),
        ensures
            ir.next_op + 2 <= usize::MAX,
            ir.next_block + 1 <= usize::MAX,
            forall|o: OpId| ir.ops.contains_key(o) ==> o < ir.next_op,
            forall|b: BlockId| ir.blocks.contains_key(b) ==> b < ir.next_block,
            ir.blocks.contains_key(ir.ops[self.op].parent->0),
            ir.blocks.contains_key(self.entry(ir)),
            ir.blocks.contains_key(self.exit(ir)),
            ir.ops.contains_key(self.yield_op(ir)),
            ir.ops[self.op].parent->0 != self.exit(ir),
            ir.regions[ir.ops[self.op].regions[0]].blocks.len() > 0,
    {
        reveal(Ir::wf);
        ir.entry_exit_in_range(self.op, 0);
        ir.position_in_range(self.op);
    }

    /// Lowering an operation that runs a region keeps every other operation but the `yield` of the
    /// region as it was, with the arguments of the block that takes the results in their place.
    /// What came after the operation is in that block.
    pub proof fn lowering_keeps_ops(self, ir: Ir, o: OpId)
        requires
            ir.wf(),
            self.lowerable(ir),
            self.lowered(ir).wf(),
            ir.ops.contains_key(o),
        ensures
            ({
                let later = self.lowered(ir);
                let pre = ir.ops[self.op].parent->0;
                let body = ir.regions[ir.ops[self.op].regions[0]].blocks;
                let ends = ir.blocks[body[body.len() - 1]].ops;
                let k = ir.blocks[pre].ops.index_of(self.op);
                let cont = ir.next_block as BlockId;
                let moved = ir.blocks[pre].ops.skip(k + 1).contains(o);
                let gone = o == self.op || o == ends[ends.len() - 1];
                &&& later.ops.contains_key(o) <==> !gone
                &&& !gone ==> ir.op_kept(
                    later,
                    o,
                    if moved { Some(cont) } else { ir.ops[o].parent },
                    self.op,
                    cont,
                    0,
                )
            }),
    {
        self.lowering_ids(ir);
        ir.operands_there(o);
        let later = self.lowered(ir);
        if later.ops.contains_key(o) {
            assert forall|i: int| 0 <= i < ir.ops[o].operands.len() implies Ir::stands_for(
                ir.ops[o].operands[i],
                #[trigger] later.ops[o].operands[i],
                self.op,
                self.continuation(ir),
                0,
            ) by {
                assert(ir.has_value(ir.ops[o].operands[i]));
            }
        }
    }

    /// Lowering an operation that runs a region keeps every block, what it is called, what it takes
    /// and where it is located. The blocks of the region go to the region that held the operation,
    /// the others stay in theirs. No other region goes, and all but the one that held the operation
    /// stay as they were.
    pub proof fn lowering_keeps_blocks(self, ir: Ir, b: BlockId)
        requires
            ir.wf(),
            self.lowerable(ir),
            self.lowered(ir).wf(),
            ir.blocks.contains_key(b),
        ensures
            ({
                let later = self.lowered(ir);
                let pre = ir.ops[self.op].parent->0;
                let region = ir.blocks[pre].parent;
                let body = ir.ops[self.op].regions[0];
                let inner = ir.regions[body].blocks;
                let (before, now) = (ir.blocks[b], later.blocks[b]);
                &&& later.blocks.contains_key(b)
                &&& now.label == before.label
                &&& now.loc == before.loc
                &&& now.args == before.args
                &&& now.parent == (if before.parent == body { region } else { before.parent })
                &&& b != pre && b != inner[inner.len() - 1] ==> now.ops == before.ops
                &&& forall|r: RegionId|
                    #[trigger] later.regions.contains_key(r) <==> ir.regions.contains_key(r) && r
                        != body
                &&& forall|r: RegionId|
                    ir.regions.contains_key(r) && r != body && r != region
                        ==> #[trigger] later.regions[r] == ir.regions[r]
                &&& later.regions[region].parent == ir.regions[region].parent
                &&& forall|c: BlockId|
                    #[trigger] later.blocks.contains_key(c) <==> ir.blocks.contains_key(c) || c
                        == ir.next_block
                &&& later.next_op == ir.next_op + 2
                &&& later.next_block == ir.next_block + 1
                &&& later.next_region == ir.next_region
            }),
    {
        self.lowering_ids(ir);
        let region = ir.blocks[ir.ops[self.op].parent->0].parent;
        assert(ir.regions.contains_key(region)) by {
            reveal(Ir::wf);
        }
        assert(region != ir.ops[self.op].regions[0]);
    }
}

impl IfOp {
    /// Lowering a choice leaves, in the region that held it and in this order: the block that held
    /// it, with what came before it and a branch, on the condition, to the first region or else to
    /// the second one, or, if there is none, behind it; the blocks of the regions, which end by
    /// branching on with what they yielded; and a block that takes the results, with their types
    /// and names, and holds what came after the choice.
    pub proof fn lowering_lays_out(self, ir: Ir)
        requires
            ir.wf(),
            self.lowerable(ir),
            self.lowered(ir).wf(),
        ensures
            ({
                let later = self.lowered(ir);
                let op = ir.ops[self.op];
                let two = op.regions.len() == 2;
                let pre = op.parent->0;
                let region = ir.blocks[pre].parent;
                let blocks = ir.regions[region].blocks;
                let p = blocks.index_of(pre) + 1;
                let k = ir.blocks[pre].ops.index_of(self.op);
                let t = ir.regions[op.regions[0]].blocks;
                let f = if two { ir.regions[op.regions[1]].blocks } else { Seq::empty() };
                let cont = ir.next_block as BlockId;
                let leave_t = ir.next_op as OpId;
                let leave_f = (ir.next_op + 1) as OpId;
                let decide = (ir.next_op + (if two { 2int } else { 1int })) as OpId;
                let (exit_t, exit_f) = (t[t.len() - 1], f[f.len() - 1]);
                let ends_t = ir.blocks[exit_t].ops;
                let ends_f = ir.blocks[exit_f].ops;
                &&& op.regions.len() == 1 || two
                &&& later.regions[region].blocks == blocks.take(p) + t + f + seq![cont]
                    + blocks.skip(p)
                &&& later.blocks[pre] == (BlockView {
                    ops: ir.blocks[pre].ops.take(k) + seq![decide],
                    ..ir.blocks[pre]
                })
                &&& later.blocks[cont].ops == ir.blocks[pre].ops.skip(k + 1)
                &&& later.blocks[cont].args == op.results
                &&& later.blocks[cont].label is None
                &&& later.blocks[cont].loc == Location::Unknown
                &&& later.blocks[cont].parent == region
                &&& later.ops[decide].kind is LlvmCondBr
                &&& later.made_in(decide, pre)
                &&& later.ops[decide].results.len() == 0
                &&& later.ops[decide].operands.len() == 1
                &&& Ir::stands_for(op.operands[0], later.ops[decide].operands[0], self.op, cont, 0)
                &&& later.ops[decide].successors == seq![t[0], if two { f[0] } else { cont }]
                &&& later.ops[decide].segments == seq![1u32, 0u32, 0u32]
                &&& later.blocks[exit_t].ops == ends_t.drop_last() + seq![leave_t]
                &&& later.branches_to(leave_t, exit_t, cont)
                &&& Ir::stand_for(
                    ir.ops[ends_t[ends_t.len() - 1]].operands,
                    later.ops[leave_t].operands,
                    self.op,
                    cont,
                    0,
                )
                &&& two ==> later.blocks[exit_f].ops == ends_f.drop_last() + seq![leave_f]
                &&& two ==> later.branches_to(leave_f, exit_f, cont)
                &&& two ==> Ir::stand_for(
                    ir.ops[ends_f[ends_f.len() - 1]].operands,
                    later.ops[leave_f].operands,
                    self.op,
                    cont,
                    0,
                )
            }),
    {
        let later = self.lowered(ir);
        self.lowering_ids(ir);
        let op = ir.ops[self.op];
        let pre = op.parent->0;
        let region = ir.blocks[pre].parent;
        let k = ir.blocks[pre].ops.index_of(self.op);
        ir.operands_there(self.op);
        ir.operands_there(self.yield_op(ir, 0));
        let exit_t = self.exit(ir, 0);
        assert(later.blocks[pre].ops =~= ir.blocks[pre].ops.take(k) + seq![self.decide(ir)]);
        assert(later.blocks[exit_t].ops =~= ir.blocks[exit_t].ops.drop_last() + seq![
            self.leave_then(ir),
        ]);
        assert(later.ops[self.decide(ir)].operands.len() == 1);
        if self.has_else(ir) {
            ir.operands_there(self.yield_op(ir, 1));
            let exit_f = self.exit(ir, 1);
            assert(later.blocks[exit_f].ops =~= ir.blocks[exit_f].ops.drop_last() + seq![
                self.leave_else(ir),
            ]);
        }
    }

    /// The identifiers that are handed out in a lowering are new.
    proof fn lowering_ids(self, ir: Ir)
        requires
            ir.wf(),
            self.lowerable(ir),
            self.lowered(ir).wf(),
        ensures
            ir.next_op + (if self.has_else(ir) { 3int } else { 2int }) <= usize::MAX,
            ir.next_block + 1 <= usize::MAX,
            forall|o: OpId| ir.ops.contains_key(o) ==> o < ir.next_op,
            forall|b: BlockId| ir.blocks.contains_key(b) ==> b < ir.next_block,
            ir.blocks.contains_key(ir.ops[self.op].parent->0),
            ir.blocks.contains_key(self.entry(ir, 0)),
            ir.blocks.contains_key(self.exit(ir, 0)),
            ir.ops.contains_key(self.yield_op(ir, 0)),
            ir.ops[self.op].parent->0 != self.exit(ir, 0),
            ir.regions[ir.ops[self.op].regions[0]].blocks.len() > 0,
            self.has_else(ir) ==> {
                &&& ir.blocks.contains_key(self.entry(ir, 1))
                &&& ir.blocks.contains_key(self.exit(ir, 1))
                &&& ir.ops.contains_key(self.yield_op(ir, 1))
                &&& ir.ops[self.op].parent->0 != self.exit(ir, 1)
                &&& self.exit(ir, 0) != self.exit(ir, 1)
                &&& ir.regions[ir.ops[self.op].regions[1]].blocks.len() > 0
            },
    {
        reveal(Ir::wf);
        ir.entry_exit_in_range(self.op, 0);
        ir.position_in_range(self.op);
        if self.has_else(ir) {
            ir.entry_exit_in_range(self.op, 1);
        }
    }

    /// Lowering a choice keeps every other operation but the `yield`s of its regions as it was,
    /// with the arguments of the block that takes the results in their place. What came after the
    /// choice is in that block.
    pub proof fn lowering_keeps_ops(self, ir: Ir, o: OpId)
        requires
            ir.wf(),
            self.lowerable(ir),
            self.lowered(ir).wf(),
            ir.ops.contains_key(o),
        ensures
            ({
                let later = self.lowered(ir);
                let op = ir.ops[self.op];
                let pre = op.parent->0;
                let t = ir.regions[op.regions[0]].blocks;
                let f = ir.regions[op.regions[1]].blocks;
                let ends_t = ir.blocks[t[t.len() - 1]].ops;
                let ends_f = ir.blocks[f[f.len() - 1]].ops;
                let k = ir.blocks[pre].ops.index_of(self.op);
                let cont = ir.next_block as BlockId;
                let moved = ir.blocks[pre].ops.skip(k + 1).contains(o);
                let gone = o == self.op || o == ends_t[ends_t.len() - 1] || (op.regions.len() == 2
                    && o == ends_f[ends_f.len() - 1]);
                &&& later.ops.contains_key(o) <==> !gone
                &&& !gone ==> ir.op_kept(
                    later,
                    o,
                    if moved { Some(cont) } else { ir.ops[o].parent },
                    self.op,
                    cont,
                    0,
                )
            }),
    {
        self.lowering_ids(ir);
        ir.operands_there(o);
        let later = self.lowered(ir);
        if later.ops.contains_key(o) {
            assert forall|i: int| 0 <= i < ir.ops[o].operands.len() implies Ir::stands_for(
                ir.ops[o].operands[i],
                #[trigger] later.ops[o].operands[i],
                self.op,
                self.continuation(ir),
                0,
            ) by {
                assert(ir.has_value(ir.ops[o].operands[i]));
            }
        }
    }

    /// Lowering a choice keeps every block, what it is called, what it takes and where it is
    /// located. The blocks of its regions go to the region that held the choice, the others stay in
    /// theirs. No other region goes, and all but the one that held the choice stay as they were.
    pub proof fn lowering_keeps_blocks(self, ir: Ir, b: BlockId)
        requires
            ir.wf(),
            self.lowerable(ir),
            self.lowered(ir).wf(),
            ir.blocks.contains_key(b),
        ensures
            ({
                let later = self.lowered(ir);
                let regions = ir.ops[self.op].regions;
                let pre = ir.ops[self.op].parent->0;
                let region = ir.blocks[pre].parent;
                let (before, now) = (ir.blocks[b], later.blocks[b]);
                let inside = exists|i: int|
                    0 <= i < regions.len() && before.parent == #[trigger] regions[i];
                &&& later.blocks.contains_key(b)
                &&& now.label == before.label
                &&& now.loc == before.loc
                &&& now.args == before.args
                &&& now.parent == (if inside { region } else { before.parent })
                &&& b != pre && !inside ==> now.ops == before.ops
                &&& forall|r: RegionId|
                    #[trigger] later.regions.contains_key(r) <==> ir.regions.contains_key(r)
                        && !(exists|i: int| 0 <= i < regions.len() && r == #[trigger] regions[i])
                &&& forall|r: RegionId|
                    later.regions.contains_key(r) && r != region ==> #[trigger] later.regions[r]
                        == ir.regions[r]
                &&& later.regions[region].parent == ir.regions[region].parent
                &&& forall|c: BlockId|
                    #[trigger] later.blocks.contains_key(c) <==> ir.blocks.contains_key(c) || c
                        == ir.next_block
                &&& later.next_op == ir.next_op + regions.len() + 1
                &&& later.next_block == ir.next_block + 1
                &&& later.next_region == ir.next_region
            }),
    {
        self.lowering_ids(ir);
        let later = self.lowered(ir);
        let regions = ir.ops[self.op].regions;
        let region = ir.blocks[ir.ops[self.op].parent->0].parent;
        assert(ir.regions.contains_key(region)) by {
            reveal(Ir::wf);
        }
        ir.entry_exit_in_range(self.op, 0);
        if self.has_else(ir) {
            ir.entry_exit_in_range(self.op, 1);
        }
        assert(!regions.contains(region)) by {
            if regions.contains(region) {
                let i = regions.index_of(region);
                assert(i == 0 || i == 1);
            }
        }
        assert forall|r: RegionId| #[trigger] later.regions.contains_key(r) <==> ir.regions.contains_key(
            r,
        ) && !(exists|i: int| 0 <= i < regions.len() && r == #[trigger] regions[i]) by {
            assert(regions.to_set().contains(r) == regions.contains(r));
        }
    }
}

impl Ir {
    /// A branch that takes the place of another stands where that stood, and has its location. All
    /// else stays as it was.
    proof fn swapping_lays_out(self, op: OpId, view: OpView)
        requires
            self.wf(),
            self.swappable(op),
            self.next_op < usize::MAX,
        ensures
            ({
                let later = self.swapped(op, view);
                let new = self.next_op as OpId;
                let pre = self.ops[op].parent->0;
                let ops = self.blocks[pre].ops;
                let k = ops.index_of(op);
                let now = later.ops[new];
                &&& now.kind == view.kind
                &&& now.operands == view.operands
                &&& now.successors == view.successors
                &&& now.segments == view.segments
                &&& now.parent == Some(pre)
                &&& now.loc == self.ops[op].loc
                &&& later.blocks[pre].ops == ops.take(k) + seq![new] + ops.skip(k + 1)
                &&& later == (Ir {
                    ops: self.ops.remove(op).insert(new, now),
                    blocks: self.blocks.insert(
                        pre,
                        BlockView { ops: later.blocks[pre].ops, ..self.blocks[pre] },
                    ),
                    next_op: self.next_op + 1,
                    ..self
                })
            }),
    {
        self.position_in_range(op);
        let later = self.swapped(op, view);
        let pre = self.ops[op].parent->0;
        let ops = self.blocks[pre].ops;
        let k = ops.index_of(op);
        let new = self.next_op as OpId;
        assert(later.blocks[pre].ops =~= ops.take(k) + seq![new] + ops.skip(k + 1));
        assert(later.blocks =~= self.blocks.insert(
            pre,
            BlockView { ops: later.blocks[pre].ops, ..self.blocks[pre] },
        ));
        assert(later.ops =~= self.ops.remove(op).insert(new, later.ops[new]));
    }
}

impl BrOp {
    /// Lowering a branch puts in its place, with its location, one of the other dialect to the same
    /// block with the same values. All else stays as it was.
    pub proof fn lowering_lays_out(self, ir: Ir)
        requires
            ir.wf(),
            self.lowerable(ir),
            ir.next_op < usize::MAX,
        ensures
            ({
                let later = self.lowered(ir);
                let op = ir.ops[self.op];
                let new = ir.next_op as OpId;
                let pre = op.parent->0;
                let ops = ir.blocks[pre].ops;
                let k = ops.index_of(self.op);
                let now = later.ops[new];
                &&& now.kind is LlvmBr
                &&& now.operands == op.operands
                &&& now.successors.len() == 1
                &&& now.successors[0] == op.successors[0]
                &&& now.results.len() == 0
                &&& now.regions.len() == 0
                &&& now.parent == Some(pre)
                &&& now.loc == op.loc
                &&& later.blocks[pre].ops == ops.take(k) + seq![new] + ops.skip(k + 1)
                &&& later == (Ir {
                    ops: ir.ops.remove(self.op).insert(new, now),
                    blocks: ir.blocks.insert(
                        pre,
                        BlockView { ops: later.blocks[pre].ops, ..ir.blocks[pre] },
                    ),
                    next_op: ir.next_op + 1,
                    ..ir
                })
            }),
    {
        ir.swapping_lays_out(
            self.op,
            OpView::llvm_br(ir.ops[self.op].successors[0], ir.ops[self.op].operands),
        );
    }
}

impl CondBrOp {
    /// Lowering a conditional branch puts in its place, with its location, one of the other dialect
    /// on the same condition, to the same blocks with the same values. All else stays as it was.
    pub proof fn lowering_lays_out(self, ir: Ir, condition: Value, t: Seq<Value>, f: Seq<Value>)
        requires
            ir.wf(),
            self.lowerable(ir),
            self.forwards(ir, condition, t, f),
            ir.next_op < usize::MAX,
        ensures
            ({
                let later = self.lowered(ir);
                let op = ir.ops[self.op];
                let new = ir.next_op as OpId;
                let pre = op.parent->0;
                let ops = ir.blocks[pre].ops;
                let k = ops.index_of(self.op);
                let now = later.ops[new];
                &&& now.kind is LlvmCondBr
                &&& (CondBrOp { op: new }).forwards(later, condition, t, f)
                &&& now.successors.len() == 2
                &&& now.successors[0] == op.successors[0]
                &&& now.successors[1] == op.successors[1]
                &&& now.results.len() == 0
                &&& now.regions.len() == 0
                &&& now.parent == Some(pre)
                &&& now.loc == op.loc
                &&& later.blocks[pre].ops == ops.take(k) + seq![new] + ops.skip(k + 1)
                &&& later == (Ir {
                    ops: ir.ops.remove(self.op).insert(new, now),
                    blocks: ir.blocks.insert(
                        pre,
                        BlockView { ops: later.blocks[pre].ops, ..ir.blocks[pre] },
                    ),
                    next_op: ir.next_op + 1,
                    ..ir
                })
            }),
    {
        let op = ir.ops[self.op];
        self.forwards_segments(ir, condition, t, f);
        ir.swapping_lays_out(
            self.op,
            OpView::llvm_cond_br(condition, op.successors[0], t, op.successors[1], f),
        );
    }
}

impl NDForOp {
    /// There are as many dimensions as there are of the fewest of lower bounds, upper bounds and
    /// steps. What belongs to a dimension is at its position among each of these.
    pub proof fn dimensions(self, ir: Ir)
        requires
            ir.wf(),
            self.lowerable(ir),
            self.lowered(ir).wf(),
        ensures
            self.dims(ir) >= 1,
            self.dims(ir) <= ir.ops[self.op].segments[0],
            self.dims(ir) <= ir.ops[self.op].segments[1],
            self.dims(ir) <= ir.ops[self.op].segments[2],
            self.dims(ir) == ir.ops[self.op].segments[0] || self.dims(ir)
                == ir.ops[self.op].segments[1] || self.dims(ir) == ir.ops[self.op].segments[2],
            ir.next_op + 2 * self.dims(ir) + 1 <= usize::MAX,
            ir.next_block + self.dims(ir) <= usize::MAX,
            ir.next_region + self.dims(ir) <= usize::MAX,
            forall|d: int|
                #![trigger ir.ops[self.op].operands[d]]
                0 <= d < self.dims(ir) ==> {
                    let l = ir.ops[self.op].segments[0] as int;
                    let u = ir.ops[self.op].segments[1] as int;
                    &&& self.lower_bounds(ir)[d] == ir.ops[self.op].operands[d]
                    &&& self.upper_bounds(ir)[d] == ir.ops[self.op].operands[l + d]
                    &&& self.steps(ir)[d] == ir.ops[self.op].operands[l + u + d]
                },
    {
        let op = ir.ops[self.op];
        op.earlier_segment(0, 2);
        op.earlier_segment(1, 2);
        op.segment_in_range(0);
        op.segment_in_range(1);
        op.segment_in_range(2);
        assert(op.segments.take(0).len() == 0);
        assert(op.segment_start(0) == 0);
        reveal(Ir::wf);
    }

    /// Lowering a loop over several dimensions leaves a nest of loops, one for each dimension, in
    /// the order of the dimensions from the outside in, each with the lower bound, the upper bound
    /// and the step of its dimension, and without results. The outermost loop is where the given
    /// one was, and has its location; each other one is in the body of the next outer one.
    pub proof fn lowering_nests(self, ir: Ir, d: int)
        requires
            ir.wf(),
            self.lowerable(ir),
            self.lowered(ir).wf(),
            0 <= d < self.dims(ir),
        ensures
            ({
                // Loops are made from the inside out.
                let later = self.lowered(ir);
                let op = ir.ops[self.op];
                let n = self.dims(ir);
                let l = n - 1 - d;
                let o = (ir.next_op + 2 * l) as OpId;
                let view = later.ops[o];
                &&& later.ops.contains_key(o)
                &&& view.kind is CfFor
                &&& view.operands == seq![
                    op.operands[d],
                    op.operands[op.segments[0] + d],
                    op.operands[op.segments[0] + op.segments[1] + d],
                ]
                &&& view.segments == seq![3u32, 0u32]
                &&& view.results.len() == 0
                &&& view.successors.len() == 0
                &&& view.regions == seq![(ir.next_region + l) as RegionId]
                &&& view.parent == (if d == 0 {
                    op.parent
                } else {
                    Some((ir.next_block + l + 1) as BlockId)
                })
                &&& view.loc == (if d == 0 { op.loc } else { Location::Unknown })
            }),
    {
        self.dimensions(ir);
        let op = ir.ops[self.op];
        let n = self.dims(ir);
        let l = n - 1 - d;
        assert((2 * l) / 2 == l && (2 * l) % 2 == 0);
        assert(self.lower_bounds(ir)[d] == op.operands[d]);
        assert(self.loop_op(ir, l) == ir.next_op + 2 * l);
        assert(self.loop_op(ir, l) != self.jump(ir));
        assert(d == 0 <==> self.loop_op(ir, l) == self.loop_op(ir, n - 1));
    }

    /// The body of each loop of the nest, here counted from the inside out, is a block called
    /// `entry` that takes an index called `iv`. It holds the next inner loop and a `yield`; the
    /// innermost one holds a branch to the given body instead, whose blocks stand behind it.
    pub proof fn lowering_fills(self, ir: Ir, l: int)
        requires
            ir.wf(),
            self.lowerable(ir),
            self.lowered(ir).wf(),
            0 <= l < self.dims(ir),
        ensures
            ({
                let later = self.lowered(ir);
                let op = ir.ops[self.op];
                let n = self.dims(ir);
                let body = ir.regions[op.regions[0]].blocks;
                let b = (ir.next_block + l) as BlockId;
                let r = (ir.next_region + l) as RegionId;
                let y = (ir.next_op + 2 * l + 1) as OpId;
                &&& later.regions[r].parent == ir.next_op + 2 * l
                &&& later.regions[r].blocks == (if l == 0 { seq![b] + body } else { seq![b] })
                &&& later.blocks[b].label == Some("entry"@)
                &&& later.blocks[b].loc == Location::Unknown
                &&& later.blocks[b].parent == r
                &&& later.blocks[b].args.len() == 1
                &&& later.blocks[b].args[0].ty is Index
                &&& later.blocks[b].args[0].name == Some("iv"@)
                &&& later.blocks[b].ops == (if l == 0 {
                    seq![(ir.next_op + 2 * n) as OpId]
                } else {
                    seq![(ir.next_op + 2 * (l - 1)) as OpId, y]
                })
                &&& later.made_in(y, if l == 0 { body[body.len() - 1] } else { b })
                &&& later.ops[y].kind is CfYield
                &&& later.ops[y].operands.len() == 0
                &&& later.ops[y].results.len() == 0
            }),
    {
        self.dimensions(ir);
        self.bounded(ir);
        let n = self.dims(ir);
        assert((2 * l + 1) / 2 == l && (2 * l + 1) % 2 == 1);
        let y = self.loop_yield(ir, l);
        assert(y == ir.next_op + 2 * l + 1);
        assert(y != self.jump(ir) && y != self.loop_op(ir, n - 1));
    }

    /// The outermost loop of the nest stands where the given loop stood. The innermost one branches
    /// to the given body with the induction variables, the outermost first, and that ends with a
    /// `yield` of nothing.
    pub proof fn lowering_lays_out(self, ir: Ir)
        requires
            ir.wf(),
            self.lowerable(ir),
            self.lowered(ir).wf(),
        ensures
            ({
                let later = self.lowered(ir);
                let op = ir.ops[self.op];
                let n = self.dims(ir);
                let pre = op.parent->0;
                let ops = ir.blocks[pre].ops;
                let k = ops.index_of(self.op);
                let body = ir.regions[op.regions[0]].blocks;
                let (entry, exit) = (body[0], body[body.len() - 1]);
                let jump = (ir.next_op + 2 * n) as OpId;
                let outer = (ir.next_op + 2 * (n - 1)) as OpId;
                &&& later.branches_to(jump, ir.next_block as BlockId, entry)
                &&& later.ops[jump].operands.len() == n
                &&& forall|d: int|
                    0 <= d < n ==> #[trigger] later.ops[jump].operands[d] == (Value::BlockArgument {
                        block: (ir.next_block + n - 1 - d) as BlockId,
                        idx: 0,
                    })
                &&& later.blocks[pre] == (BlockView {
                    ops: ops.take(k) + seq![outer] + ops.skip(k + 1),
                    ..ir.blocks[pre]
                })
                &&& later.blocks[exit].ops == ir.blocks[exit].ops.drop_last() + seq![
                    (ir.next_op + 1) as OpId,
                ]
            }),
    {
        let later = self.lowered(ir);
        let op = ir.ops[self.op];
        self.dimensions(ir);
        self.bounded(ir);
        ir.position_in_range(self.op);
        let n = self.dims(ir);
        let pre = op.parent->0;
        let ops = ir.blocks[pre].ops;
        let k = ops.index_of(self.op);
        let outer = self.loop_op(ir, n - 1);
        assert(later.blocks[pre].ops =~= ops.take(k) + seq![outer] + ops.skip(k + 1));
        let exit = self.exit(ir);
        assert(later.blocks[exit].ops =~= ir.blocks[exit].ops.drop_last() + seq![
            self.loop_yield(ir, 0),
        ]);
    }

    /// Lowering a loop over several dimensions keeps every other operation but the `yield` of its
    /// body as it was, and every block but the one that held the loop and the last one of the body.
    /// The blocks of the body go to the region of the innermost loop, the others stay in theirs.
    /// The body is the only region that goes, and all others stay as they were.
    pub proof fn lowering_keeps_all_else(self, ir: Ir)
        requires
            ir.wf(),
            self.lowerable(ir),
            self.lowered(ir).wf(),
        ensures
            ({
                let later = self.lowered(ir);
                let op = ir.ops[self.op];
                let pre = op.parent->0;
                let inner = ir.regions[op.regions[0]].blocks;
                let exit = inner[inner.len() - 1];
                let ends = ir.blocks[exit].ops;
                &&& forall|o: OpId|
                    #[trigger] ir.ops.contains_key(o) ==> {
                        let gone = o == self.op || o == ends[ends.len() - 1];
                        &&& later.ops.contains_key(o) <==> !gone
                        &&& !gone ==> later.ops[o] == ir.ops[o]
                    }
                &&& forall|b: BlockId|
                    #[trigger] ir.blocks.contains_key(b) ==> {
                        let (before, now) = (ir.blocks[b], later.blocks[b]);
                        &&& later.blocks.contains_key(b)
                        &&& now.label == before.label
                        &&& now.loc == before.loc
                        &&& now.args == before.args
                        &&& now.parent == (if before.parent == op.regions[0] && b != pre {
                            ir.next_region as RegionId
                        } else {
                            before.parent
                        })
                        &&& b != pre && b != exit ==> now.ops == before.ops
                    }
                &&& forall|r: RegionId|
                    #[trigger] ir.regions.contains_key(r) ==> {
                        &&& later.regions.contains_key(r) <==> r != op.regions[0]
                        &&& r != op.regions[0] ==> later.regions[r] == ir.regions[r]
                    }
            }),
    {
        let later = self.lowered(ir);
        self.bounded(ir);
        assert(later.next_op <= usize::MAX && later.next_block <= usize::MAX && later.next_region
            <= usize::MAX) by {
            reveal(Ir::wf);
        }
        ir.entry_exit_in_range(self.op, 0);
        ir.position_in_range(self.op);
    }
}

} // verus!
