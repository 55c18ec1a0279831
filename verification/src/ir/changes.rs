//! What each elementary change does, place by place, and what it leaves as it was.

use crate::ir::model::{BlockView, Ir, OpView, RegionView};
use crate::ir::types::{
    BlockId, BlockInsertionPoint, Location, OpId, OpInsertionPoint, OpKind, RegionId, Type, Value,
};
use vstd::prelude::*;

verus! {

/// What can be read.
impl Ir {
    /// A value is what stands at its position among the results of its operation, or among the
    /// arguments of its block. The types of several values are theirs, in their order.
    pub proof fn values_are(self, values: Seq<Value>)
        ensures
            self.types_of(values).len() == values.len(),
            forall|i: int|
                0 <= i < values.len() ==> #[trigger] self.types_of(values)[i] == match values[i] {
                    Value::OpResult { op, idx } => self.ops[op].results[idx as int].ty,
                    Value::BlockArgument { block, idx } => self.blocks[block].args[idx as int].ty,
                },
    {
    }

    /// The arguments of a block from one on are all that come from there, in their order.
    pub proof fn arguments_are(self, block: BlockId, first: int)
        requires
            0 <= first <= self.blocks[block].args.len() <= usize::MAX,
        ensures
            ({
                let values = self.arguments_from(block, first);
                &&& values.len() == self.blocks[block].args.len() - first
                &&& forall|i: int|
                    0 <= i < values.len() ==> #[trigger] values[i] == (Value::BlockArgument {
                        block,
                        idx: (first + i) as usize,
                    }) && self.def(values[i]) == self.blocks[block].args[first + i]
            }),
    {
    }
}

/// Making and placing.
impl Ir {
    /// An operation that is made is what it was asked to be, is in no block, and has as many empty
    /// regions as it was asked to have. Nothing else changes.
    pub proof fn op_created(
        self,
        kind: OpKind,
        result_types: Seq<Type>,
        operands: Seq<Value>,
        successors: Seq<BlockId>,
        num_regions: nat,
        segments: Seq<u32>,
    )
        requires
            self.wf(),
            self.next_op < usize::MAX,
            self.next_region + num_regions <= usize::MAX,
        ensures
            ({
                let after = self.created_op(
                    kind,
                    result_types,
                    operands,
                    successors,
                    num_regions,
                    segments,
                );
                let op = self.next_op as OpId;
                let view = after.ops[op];
                &&& !self.ops.contains_key(op)
                &&& after.ops == self.ops.insert(op, view)
                &&& view.kind == kind
                &&& view.operands == operands
                &&& view.successors == successors
                &&& view.segments == segments
                &&& view.parent is None
                &&& view.loc == Location::Unknown
                &&& view.results.len() == result_types.len()
                &&& forall|i: int|
                    0 <= i < result_types.len() ==> (#[trigger] view.results[i]).ty
                        == result_types[i] && view.results[i].name is None
                &&& view.regions.len() == num_regions
                &&& forall|i: int|
                    0 <= i < num_regions ==> #[trigger] view.regions[i] == self.next_region + i
                        && after.regions[view.regions[i]].blocks.len() == 0
                        && after.regions[view.regions[i]].parent == op
                &&& forall|r: RegionId|
                    #[trigger] after.regions.contains_key(r) <==> self.regions.contains_key(r)
                        || self.next_region <= r < self.next_region + num_regions
                &&& forall|r: RegionId|
                    #[trigger] self.regions.contains_key(r) ==> after.regions[r] == self.regions[r]
                &&& after.blocks == self.blocks
                &&& after.next_op == self.next_op + 1
                &&& after.next_block == self.next_block
                &&& after.next_region == self.next_region + num_regions
            }),
    {
        reveal(Ir::wf);
    }

    /// An operation that gets one more region has it behind the others, and it is empty. Nothing
    /// else changes.
    pub proof fn region_created(self, op: OpId)
        requires
            self.next_region < usize::MAX,
        ensures
            ({
                let after = self.created_region(op);
                let region = self.next_region as RegionId;
                &&& after.ops[op].regions == self.ops[op].regions + seq![region]
                &&& after.regions[region].blocks.len() == 0
                &&& after.regions[region].parent == op
                &&& after == (Ir {
                    ops: self.ops.insert(
                        op,
                        OpView { regions: after.ops[op].regions, ..self.ops[op] },
                    ),
                    regions: self.regions.insert(region, after.regions[region]),
                    next_region: self.next_region + 1,
                    ..self
                })
            }),
    {
        let after = self.created_region(op);
        let region = self.next_region as RegionId;
        assert(after.ops[op].regions =~= self.ops[op].regions + seq![region]);
        assert(after.regions =~= self.regions.insert(region, after.regions[region]));
    }

    /// A block that is made stands where it was asked to stand: before or behind all blocks of a
    /// region, or directly before or behind a given block. It has the label and takes values of the
    /// types that it was asked for, and is empty. Nothing else changes.
    pub proof fn block_created(
        self,
        at: BlockInsertionPoint,
        label: Option<Seq<char>>,
        arg_types: Seq<Type>,
    )
        requires
            self.wf(),
            self.block_point_valid(at),
            self.next_block < usize::MAX,
        ensures
            ({
                let after = self.created_block(at, label, arg_types);
                let b = self.next_block as BlockId;
                let region = self.block_point_region(at);
                let blocks = self.regions[region].blocks;
                let now = after.regions[region].blocks;
                let made = after.blocks[b];
                &&& match at {
                    BlockInsertionPoint::AtRegionStart(r) => region == r && now == seq![b] + blocks,
                    BlockInsertionPoint::AtRegionEnd(r) => region == r && now == blocks + seq![b],
                    BlockInsertionPoint::BeforeBlock(c) => region == self.blocks[c].parent
                        && exists|k: int|
                        0 <= k < blocks.len() && #[trigger] blocks[k] == c && now == blocks.take(k)
                            + seq![b] + blocks.skip(k),
                    BlockInsertionPoint::AfterBlock(c) => region == self.blocks[c].parent
                        && exists|k: int|
                        0 <= k < blocks.len() && #[trigger] blocks[k] == c && now == blocks.take(
                            k + 1,
                        ) + seq![b] + blocks.skip(k + 1),
                }
                &&& made.label == label
                &&& made.args.len() == arg_types.len()
                &&& forall|i: int|
                    0 <= i < arg_types.len() ==> (#[trigger] made.args[i]).ty == arg_types[i]
                        && made.args[i].name is None
                &&& made.ops.len() == 0
                &&& made.parent == region
                &&& made.loc == Location::Unknown
                &&& after == (Ir {
                    blocks: self.blocks.insert(b, made),
                    regions: self.regions.insert(
                        region,
                        RegionView { blocks: now, ..self.regions[region] },
                    ),
                    next_block: self.next_block + 1,
                    ..self
                })
            }),
    {
        reveal(Ir::wf);
        let after = self.created_block(at, label, arg_types);
        let b = self.next_block as BlockId;
        let region = self.block_point_region(at);
        let blocks = self.regions[region].blocks;
        let now = after.regions[region].blocks;
        let k = self.block_point_index(at);
        match at {
            BlockInsertionPoint::AtRegionStart(_) => {
                assert(now =~= seq![b] + blocks);
            },
            BlockInsertionPoint::AtRegionEnd(_) => {
                assert(now =~= blocks + seq![b]);
            },
            BlockInsertionPoint::BeforeBlock(c) => {
                assert(blocks.contains(c));
                assert(blocks[k] == c);
                assert(now =~= blocks.take(k) + seq![b] + blocks.skip(k));
            },
            BlockInsertionPoint::AfterBlock(c) => {
                assert(blocks.contains(c));
                let j = self.block_position(c);
                assert(blocks[j] == c);
                assert(now =~= blocks.take(j + 1) + seq![b] + blocks.skip(j + 1));
            },
        }
        assert(after.blocks =~= self.blocks.insert(b, after.blocks[b]));
        assert(after.regions =~= self.regions.insert(
            region,
            RegionView { blocks: now, ..self.regions[region] },
        ));
    }

    /// An operation that is inserted stands where it was asked to stand: before or behind all
    /// operations of a block, or directly before or behind a given operation. Nothing else changes.
    pub proof fn op_inserted(self, op: OpId, at: OpInsertionPoint)
        requires
            self.wf(),
            self.op_point_valid(at),
            self.ops.contains_key(op),
            self.ops[op].parent is None,
        ensures
            ({
                let after = self.inserted_op(op, at);
                let block = self.op_point_block(at);
                let ops = self.blocks[block].ops;
                let now = after.blocks[block].ops;
                &&& match at {
                    OpInsertionPoint::Unset => false,
                    OpInsertionPoint::AtBlockStart(b) => block == b && now == seq![op] + ops,
                    OpInsertionPoint::AtBlockEnd(b) => block == b && now == ops + seq![op],
                    OpInsertionPoint::BeforeOperation(o) => Some(block) == self.ops[o].parent
                        && exists|k: int|
                        0 <= k < ops.len() && #[trigger] ops[k] == o && now == ops.take(k) + seq![
                            op,
                        ] + ops.skip(k),
                    OpInsertionPoint::AfterOperation(o) => Some(block) == self.ops[o].parent
                        && exists|k: int|
                        0 <= k < ops.len() && #[trigger] ops[k] == o && now == ops.take(k + 1)
                            + seq![op] + ops.skip(k + 1),
                }
                &&& after == (Ir {
                    ops: self.ops.insert(op, OpView { parent: Some(block), ..self.ops[op] }),
                    blocks: self.blocks.insert(
                        block,
                        BlockView { ops: now, ..self.blocks[block] },
                    ),
                    ..self
                })
            }),
    {
        reveal(Ir::wf);
        let after = self.inserted_op(op, at);
        let block = self.op_point_block(at);
        let ops = self.blocks[block].ops;
        let now = after.blocks[block].ops;
        let k = self.op_point_index(at);
        match at {
            OpInsertionPoint::Unset => {},
            OpInsertionPoint::AtBlockStart(_) => {
                assert(now =~= seq![op] + ops);
            },
            OpInsertionPoint::AtBlockEnd(_) => {
                assert(now =~= ops + seq![op]);
            },
            OpInsertionPoint::BeforeOperation(o) => {
                assert(ops.contains(o));
                assert(ops[k] == o);
                assert(now =~= ops.take(k) + seq![op] + ops.skip(k));
            },
            OpInsertionPoint::AfterOperation(o) => {
                assert(ops.contains(o));
                assert(ops[k - 1] == o);
                assert(now =~= ops.take(k) + seq![op] + ops.skip(k));
                assert(now == ops.take((k - 1) + 1) + seq![op] + ops.skip((k - 1) + 1));
            },
        }
        assert(after.blocks =~= self.blocks.insert(
            block,
            BlockView { ops: now, ..self.blocks[block] },
        ));
    }
}

/// Moving and removing.
impl Ir {
    /// Moving the tail of a block leaves what comes before the given operation in that block, and
    /// puts the operation and what comes after it, in their order, behind what is in the other one.
    pub proof fn tail_moved(self, first: OpId, dest: BlockId)
        requires
            self.wf(),
            self.placed(first),
            self.blocks.contains_key(dest),
            self.ops[first].parent != Some(dest),
        ensures
            ({
                let after = self.moved_tail(first, dest);
                let b = self.ops[first].parent->0;
                let ops = self.blocks[b].ops;
                let (left, moved) = (after.blocks[b].ops, after.blocks[dest].ops.skip(
                    self.blocks[dest].ops.len() as int,
                ));
                &&& left + moved == ops
                &&& moved.len() > 0
                &&& moved[0] == first
                &&& after.blocks[dest].ops.take(self.blocks[dest].ops.len() as int) == self.blocks[
                dest].ops
                &&& forall|o: OpId|
                    #[trigger] after.ops.contains_key(o) <==> self.ops.contains_key(o)
                &&& forall|o: OpId|
                    #[trigger] self.ops.contains_key(o) ==> after.ops[o] == (OpView {
                        parent: if moved.contains(o) { Some(dest) } else { self.ops[o].parent },
                        ..self.ops[o]
                    })
                &&& after == (Ir {
                    ops: after.ops,
                    blocks: self.blocks.insert(b, BlockView { ops: left, ..self.blocks[b] }).insert(
                        dest,
                        BlockView { ops: after.blocks[dest].ops, ..self.blocks[dest] },
                    ),
                    ..self
                })
            }),
    {
        reveal(Ir::wf);
        let after = self.moved_tail(first, dest);
        let b = self.ops[first].parent->0;
        let ops = self.blocks[b].ops;
        let k = self.position(first);
        assert(ops.contains(first));
        let n = self.blocks[dest].ops.len() as int;
        assert(after.blocks[dest].ops.skip(n) =~= ops.skip(k));
        assert(after.blocks[dest].ops.take(n) =~= self.blocks[dest].ops);
        assert(after.blocks[b].ops =~= ops.take(k));
        assert(ops.take(k) + ops.skip(k) =~= ops);
        assert(after.blocks =~= self.blocks.insert(
            b,
            BlockView { ops: after.blocks[b].ops, ..self.blocks[b] },
        ).insert(dest, BlockView { ops: after.blocks[dest].ops, ..self.blocks[dest] }));
    }

    /// Inlining a region puts its blocks, in their order, directly behind a block of another region,
    /// and leaves it empty. The blocks stay what they were.
    pub proof fn region_inlined(self, src: RegionId, after: BlockId)
        requires
            self.wf(),
            self.regions.contains_key(src),
            self.blocks.contains_key(after),
            self.blocks[after].parent != src,
        ensures
            ({
                let later = self.inlined_region(src, after);
                let dest = self.blocks[after].parent;
                let blocks = self.regions[dest].blocks;
                let moved = self.regions[src].blocks;
                &&& later.regions[src].blocks.len() == 0
                &&& exists|k: int|
                    0 <= k < blocks.len() && #[trigger] blocks[k] == after
                        && later.regions[dest].blocks == blocks.take(k + 1) + moved + blocks.skip(
                        k + 1,
                    )
                &&& forall|b: BlockId|
                    #[trigger] later.blocks.contains_key(b) <==> self.blocks.contains_key(b)
                &&& forall|b: BlockId|
                    #[trigger] self.blocks.contains_key(b) ==> later.blocks[b] == (BlockView {
                        parent: if moved.contains(b) { dest } else { self.blocks[b].parent },
                        ..self.blocks[b]
                    })
                &&& later == (Ir {
                    blocks: later.blocks,
                    regions: self.regions.insert(
                        src,
                        RegionView { blocks: Seq::empty(), ..self.regions[src] },
                    ).insert(
                        dest,
                        RegionView { blocks: later.regions[dest].blocks, ..self.regions[dest] },
                    ),
                    ..self
                })
            }),
    {
        reveal(Ir::wf);
        let later = self.inlined_region(src, after);
        let dest = self.blocks[after].parent;
        let blocks = self.regions[dest].blocks;
        assert(blocks.contains(after));
        let k = self.block_position(after);
        assert(blocks[k] == after);
        assert(later.regions =~= self.regions.insert(
            src,
            RegionView { blocks: Seq::empty(), ..self.regions[src] },
        ).insert(
            dest,
            RegionView { blocks: later.regions[dest].blocks, ..self.regions[dest] },
        ));
    }

    /// Erasing an operation takes it, and its regions, away, and leaves all others of its block in
    /// their order. Nothing else changes.
    pub proof fn op_erased(self, op: OpId)
        requires
            self.wf(),
            self.ops.contains_key(op),
        ensures
            ({
                let after = self.erased_op(op);
                let b = self.ops[op].parent->0;
                let ops = self.blocks[b].ops;
                &&& after.ops == self.ops.remove(op)
                &&& self.ops[op].parent is None ==> after.blocks == self.blocks
                &&& self.ops[op].parent is Some ==> after.blocks == self.blocks.insert(
                    b,
                    BlockView { ops: after.blocks[b].ops, ..self.blocks[b] },
                )
                &&& self.ops[op].parent is Some ==> exists|k: int|
                    0 <= k < ops.len() && #[trigger] ops[k] == op && after.blocks[b].ops
                        == ops.take(k) + ops.skip(k + 1)
                &&& forall|r: RegionId|
                    #[trigger] after.regions.contains_key(r) <==> self.regions.contains_key(r)
                        && !self.ops[op].regions.contains(r)
                &&& forall|r: RegionId|
                    #[trigger] after.regions.contains_key(r) ==> after.regions[r] == self.regions[r]
                &&& after.next_op == self.next_op
                &&& after.next_block == self.next_block
                &&& after.next_region == self.next_region
            }),
    {
        reveal(Ir::wf);
        let after = self.erased_op(op);
        if self.ops[op].parent is Some {
            let b = self.ops[op].parent->0;
            let ops = self.blocks[b].ops;
            assert(ops.contains(op));
            let k = self.position(op);
            assert(ops[k] == op);
            assert(after.blocks[b].ops =~= ops.take(k) + ops.skip(k + 1));
            assert(after.blocks =~= self.blocks.insert(
                b,
                BlockView { ops: after.blocks[b].ops, ..self.blocks[b] },
            ));
        }
    }

    /// Replacing the results of an operation by arguments of a block makes every operand that is
    /// such a result the argument that stands for it, and leaves every other operand. An argument
    /// without a name takes that of the result for which it stands. Nothing else changes.
    pub proof fn results_replaced(self, op: OpId, block: BlockId, first: int)
        requires
            self.wf(),
            self.ops.contains_key(op),
            self.blocks.contains_key(block),
            0 <= first,
            first + self.ops[op].results.len() <= self.blocks[block].args.len() <= usize::MAX,
        ensures
            ({
                let after = self.replaced_results(op, block, first);
                let results = self.ops[op].results;
                let args = self.blocks[block].args;
                let now = after.blocks[block].args;
                &&& forall|o: OpId|
                    #[trigger] after.ops.contains_key(o) <==> self.ops.contains_key(o)
                &&& forall|o: OpId|
                    #[trigger] self.ops.contains_key(o) ==> after.ops[o] == (OpView {
                        operands: after.ops[o].operands,
                        ..self.ops[o]
                    }) && after.ops[o].operands.len() == self.ops[o].operands.len()
                &&& forall|o: OpId, i: int|
                    #![trigger after.ops[o].operands[i]]
                    self.ops.contains_key(o) && 0 <= i < self.ops[o].operands.len() ==> {
                        let v = self.ops[o].operands[i];
                        if v is OpResult && v->op == op {
                            after.ops[o].operands[i] == (Value::BlockArgument {
                                block,
                                idx: (v->OpResult_idx + first) as usize,
                            })
                        } else {
                            after.ops[o].operands[i] == v
                        }
                    }
                &&& now.len() == args.len()
                &&& forall|i: int|
                    0 <= i < args.len() ==> (#[trigger] now[i]).ty == args[i].ty && now[i].name == (
                    if first <= i < first + results.len() && args[i].name is None {
                        results[i - first].name
                    } else {
                        args[i].name
                    })
                &&& after == (Ir {
                    ops: after.ops,
                    blocks: self.blocks.insert(
                        block,
                        BlockView { args: now, ..self.blocks[block] },
                    ),
                    ..self
                })
            }),
    {
        let after = self.replaced_results(op, block, first);
        assert(after.blocks =~= self.blocks.insert(
            block,
            BlockView { args: after.blocks[block].args, ..self.blocks[block] },
        ));
        assert forall|o: OpId, i: int|
            #![trigger after.ops[o].operands[i]]
            self.ops.contains_key(o) && 0 <= i < self.ops[o].operands.len() implies {
            let v = self.ops[o].operands[i];
            if v is OpResult && v->op == op {
                after.ops[o].operands[i] == (Value::BlockArgument {
                    block,
                    idx: (v->OpResult_idx + first) as usize,
                })
            } else {
                after.ops[o].operands[i] == v
            }
        } by {
            let v = self.ops[o].operands[i];
            assert(after.ops[o].operands[i] == Ir::substituted(v, op, block, first));
        }
    }
}

/// Typing, naming and locating.
impl Ir {
    /// An argument of a block that is retyped, or named, has that type, or that name, and is
    /// otherwise what it was. Nothing else changes.
    pub proof fn argument_changed(self, block: BlockId, idx: int, ty: Type, name: Seq<char>)
        requires
            self.blocks.contains_key(block),
            0 <= idx < self.blocks[block].args.len(),
        ensures
            ({
                let arg = self.blocks[block].args[idx];
                let typed = self.retyped_argument(block, idx, ty);
                let named = self.named_argument(block, idx, name);
                &&& self.only_argument(typed, block, idx)
                &&& typed.blocks[block].args[idx].ty == ty
                &&& typed.blocks[block].args[idx].name == arg.name
                &&& self.only_argument(named, block, idx)
                &&& named.blocks[block].args[idx].ty == arg.ty
                &&& named.blocks[block].args[idx].name == Some(name)
            }),
    {
        let typed = self.retyped_argument(block, idx, ty);
        let named = self.named_argument(block, idx, name);
        assert(typed.blocks =~= self.blocks.insert(
            block,
            BlockView { args: typed.blocks[block].args, ..self.blocks[block] },
        ));
        assert(named.blocks =~= self.blocks.insert(
            block,
            BlockView { args: named.blocks[block].args, ..self.blocks[block] },
        ));
    }

    /// Is nothing different but, perhaps, one argument of a block?
    pub open spec fn only_argument(self, later: Ir, block: BlockId, idx: int) -> bool {
        let before = self.blocks[block].args;
        let now = later.blocks[block].args;
        &&& now.len() == before.len()
        &&& forall|i: int| 0 <= i < now.len() && i != idx ==> #[trigger] now[i] == before[i]
        &&& later == (Ir {
            blocks: self.blocks.insert(block, BlockView { args: now, ..self.blocks[block] }),
            ..self
        })
    }

    /// A result that is named has that name, and keeps its type. Nothing else changes.
    pub proof fn result_named(self, op: OpId, idx: int, name: Seq<char>)
        requires
            self.ops.contains_key(op),
            0 <= idx < self.ops[op].results.len(),
        ensures
            ({
                let later = self.named_result(op, idx, name);
                let before = self.ops[op].results;
                let now = later.ops[op].results;
                &&& now.len() == before.len()
                &&& forall|i: int| 0 <= i < now.len() && i != idx ==> #[trigger] now[i] == before[i]
                &&& now[idx].name == Some(name)
                &&& now[idx].ty == before[idx].ty
                &&& later == (Ir {
                    ops: self.ops.insert(op, OpView { results: now, ..self.ops[op] }),
                    ..self
                })
            }),
    {
        let later = self.named_result(op, idx, name);
        assert(later.ops =~= self.ops.insert(
            op,
            OpView { results: later.ops[op].results, ..self.ops[op] },
        ));
    }

    /// A block or an operation that is located has that location. An operation that gets other
    /// operands has those, in groups of the given sizes. Nothing else changes.
    pub proof fn located_and_operated(
        self,
        block: BlockId,
        op: OpId,
        loc: Location,
        operands: Seq<Value>,
        segments: Seq<u32>,
    )
        ensures
            self.located_block(block, loc) == (Ir {
                blocks: self.blocks.insert(block, BlockView { loc, ..self.blocks[block] }),
                ..self
            }),
            self.located_op(op, loc) == (Ir {
                ops: self.ops.insert(op, OpView { loc, ..self.ops[op] }),
                ..self
            }),
            self.set_operands(op, operands, segments) == (Ir {
                ops: self.ops.insert(op, OpView { operands, segments, ..self.ops[op] }),
                ..self
            }),
    {
    }

    /// A block that is split has a new block directly behind it in its region. What comes before the
    /// given operation stays, and that operation and what comes after it are in the new block, which
    /// takes nothing, and is called as the other one with `_split` behind, if that has a name.
    pub proof fn block_split(self, op: OpId)
        requires
            self.wf(),
            self.placed(op),
            self.next_block < usize::MAX,
        ensures
            ({
                let later = self.split_before(op);
                let b = self.ops[op].parent->0;
                let c = self.next_block as BlockId;
                let region = self.blocks[b].parent;
                let blocks = self.regions[region].blocks;
                let (left, moved) = (later.blocks[b].ops, later.blocks[c].ops);
                &&& left + moved == self.blocks[b].ops
                &&& moved.len() > 0
                &&& moved[0] == op
                &&& later.blocks[b] == (BlockView { ops: left, ..self.blocks[b] })
                &&& later.blocks[c].args.len() == 0
                &&& later.blocks[c].parent == region
                &&& later.blocks[c].label is Some <==> self.blocks[b].label is Some
                &&& self.blocks[b].label is Some ==> later.blocks[c].label->0 == self.blocks[
                b].label->0 + "_split"@
                &&& exists|k: int|
                    0 <= k < blocks.len() && #[trigger] blocks[k] == b
                        && later.regions[region].blocks == blocks.take(k + 1) + seq![c]
                        + blocks.skip(k + 1)
                &&& forall|o: OpId|
                    #[trigger] self.ops.contains_key(o) ==> later.ops[o] == (OpView {
                        parent: if moved.contains(o) { Some(c) } else { self.ops[o].parent },
                        ..self.ops[o]
                    })
            }),
    {
        let b = self.ops[op].parent->0;
        let c = self.next_block as BlockId;
        let at = BlockInsertionPoint::AfterBlock(b);
        let label = Ir::split_label(self.blocks[b].label);
        self.split_keeps(op);
        let made = self.created_block(at, label, Seq::empty());
        self.block_created(at, label, Seq::empty());
        self.created_block_keeps_positions(at, label, Seq::empty(), op);
        self.position_in_range(op);
        let later = self.split_before(op);
        let ops = self.blocks[b].ops;
        let k = self.position(op);
        assert(later.blocks[c].ops =~= ops.skip(k));
        assert(later.blocks[b].ops =~= ops.take(k));
        assert(ops.take(k) + ops.skip(k) =~= ops);
        let region = self.blocks[b].parent;
        let blocks = self.regions[region].blocks;
        let j = choose|j: int|
            0 <= j < blocks.len() && #[trigger] blocks[j] == b && made.regions[region].blocks
                == blocks.take(j + 1) + seq![c] + blocks.skip(j + 1);
        assert(later.regions[region].blocks == blocks.take(j + 1) + seq![c] + blocks.skip(j + 1));
    }

    /// An operation that replaces another keeps its location if it has one, and takes that of the
    /// other one if it has none. The other one goes.
    pub proof fn op_replaced(self, op: OpId, new_op: OpId)
        requires
            op != new_op,
        ensures
            ({
                let later = self.replaced_op(op, new_op);
                &&& self.ops[new_op].loc == Location::Unknown ==> later.ops
                    == self.ops.insert(
                    new_op,
                    OpView { loc: self.ops[op].loc, ..self.ops[new_op] },
                ).remove(op)
                &&& self.ops[new_op].loc != Location::Unknown ==> later.ops == self.ops.remove(op)
                &&& later.blocks == self.erased_op(op).blocks
                &&& later.regions == self.erased_op(op).regions
            }),
    {
        let later = self.replaced_op(op, new_op);
        assert(later.blocks =~= self.erased_op(op).blocks);
        assert(later.regions =~= self.erased_op(op).regions);
    }
}

} // verus!
