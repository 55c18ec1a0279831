//! The mathematical model of the intermediate representation: what it holds, when it is
//! well formed, and what each elementary change does to it.

use crate::ir::types::{
    BlockId, BlockInsertionPoint, Location, OpId, OpInsertionPoint, OpKind, RegionId, Type, Value,
};
use vstd::prelude::*;

verus! {

/// A result of an operation, or an argument of a block.
#[verifier::ext_equal]
pub struct Def {
    pub ty: Type,
    pub name: Option<Seq<char>>,
}

/// An operation.
#[verifier::ext_equal]
pub struct OpView {
    pub kind: OpKind,
    pub results: Seq<Def>,
    pub operands: Seq<Value>,
    pub successors: Seq<BlockId>,
    pub regions: Seq<RegionId>,
    /// The sizes of the groups that the operands fall into, in order.
    pub segments: Seq<u32>,
    /// The block that holds the operation, if it has been inserted into one.
    pub parent: Option<BlockId>,
    pub loc: Location,
}

/// A block.
#[verifier::ext_equal]
pub struct BlockView {
    pub label: Option<Seq<char>>,
    pub args: Seq<Def>,
    pub ops: Seq<OpId>,
    pub parent: RegionId,
    pub loc: Location,
}

/// A region.
#[verifier::ext_equal]
pub struct RegionView {
    pub blocks: Seq<BlockId>,
    pub parent: OpId,
}

/// All that the intermediate representation holds. An identifier that is no key of its map
/// has not been handed out yet, or what it named has been erased.
#[verifier::ext_equal]
pub struct Ir {
    pub ops: Map<OpId, OpView>,
    pub blocks: Map<BlockId, BlockView>,
    pub regions: Map<RegionId, RegionView>,
    /// The identifiers that are handed out next.
    pub next_op: nat,
    pub next_block: nat,
    pub next_region: nat,
}

impl Def {
    /// A definition of the given type, without a name.
    pub open spec fn unnamed(ty: Type) -> Def {
        Def { ty, name: None }
    }

    /// Unnamed definitions of the given types.
    pub open spec fn all_unnamed(types: Seq<Type>) -> Seq<Def> {
        types.map_values(|ty: Type| Def::unnamed(ty))
    }
}

impl Ir {
    /// The representation that holds nothing.
    pub open spec fn empty() -> Ir {
        Ir {
            ops: Map::empty(),
            blocks: Map::empty(),
            regions: Map::empty(),
            next_op: 0,
            next_block: 0,
            next_region: 0,
        }
    }

    /// The operation identifier that is handed out after `k` others.
    pub open spec fn op_at(self, k: int) -> OpId {
        (self.next_op + k) as usize
    }

    /// The block identifier that is handed out after `k` others.
    pub open spec fn block_at(self, k: int) -> BlockId {
        (self.next_block + k) as usize
    }

    /// The region identifier that is handed out after `k` others.
    pub open spec fn region_at(self, k: int) -> RegionId {
        (self.next_region + k) as usize
    }

    // ----- Well-formedness -----

    /// Identifiers that have not been handed out name nothing, and no more are handed out than
    /// there are numbers.
    pub open spec fn ids_bounded(self) -> bool {
        &&& self.next_op <= usize::MAX
        &&& self.next_block <= usize::MAX
        &&& self.next_region <= usize::MAX
        &&& forall|o: OpId| #[trigger] self.ops.contains_key(o) ==> o < self.next_op
        &&& forall|b: BlockId| #[trigger] self.blocks.contains_key(b) ==> b < self.next_block
        &&& forall|r: RegionId| #[trigger] self.regions.contains_key(r) ==> r < self.next_region
    }

    /// A block's list of operations holds, once each, the operations whose parent it is.
    pub open spec fn ops_placed(self) -> bool {
        &&& forall|b: BlockId|
            #[trigger] self.blocks.contains_key(b) ==> self.blocks[b].ops.no_duplicates()
        &&& forall|b: BlockId, i: int|
            #![trigger self.blocks[b].ops[i]]
            self.blocks.contains_key(b) && 0 <= i < self.blocks[b].ops.len() ==> {
                &&& self.ops.contains_key(self.blocks[b].ops[i])
                &&& self.ops[self.blocks[b].ops[i]].parent == Some(b)
            }
        &&& forall|o: OpId|
            #[trigger] self.ops.contains_key(o) && self.ops[o].parent is Some ==> {
                &&& self.blocks.contains_key(self.ops[o].parent->0)
                &&& self.blocks[self.ops[o].parent->0].ops.contains(o)
            }
    }

    /// A region's list of blocks holds, once each, the blocks whose parent it is.
    pub open spec fn blocks_placed(self) -> bool {
        &&& forall|r: RegionId|
            #[trigger] self.regions.contains_key(r) ==> self.regions[r].blocks.no_duplicates()
        &&& forall|r: RegionId, i: int|
            #![trigger self.regions[r].blocks[i]]
            self.regions.contains_key(r) && 0 <= i < self.regions[r].blocks.len() ==> {
                &&& self.blocks.contains_key(self.regions[r].blocks[i])
                &&& self.blocks[self.regions[r].blocks[i]].parent == r
            }
        &&& forall|b: BlockId|
            #[trigger] self.blocks.contains_key(b) ==> {
                &&& self.regions.contains_key(self.blocks[b].parent)
                &&& self.regions[self.blocks[b].parent].blocks.contains(b)
            }
    }

    /// An operation's list of regions holds, once each, the regions whose parent it is.
    pub open spec fn regions_placed(self) -> bool {
        &&& forall|o: OpId|
            #[trigger] self.ops.contains_key(o) ==> self.ops[o].regions.no_duplicates()
        &&& forall|o: OpId, i: int|
            #![trigger self.ops[o].regions[i]]
            self.ops.contains_key(o) && 0 <= i < self.ops[o].regions.len() ==> {
                &&& self.regions.contains_key(self.ops[o].regions[i])
                &&& self.regions[self.ops[o].regions[i]].parent == o
            }
        &&& forall|r: RegionId|
            #[trigger] self.regions.contains_key(r) ==> {
                &&& self.ops.contains_key(self.regions[r].parent)
                &&& self.ops[self.regions[r].parent].regions.contains(r)
            }
    }

    /// Does `v` name a result or an argument that is there?
    pub open spec fn has_value(self, v: Value) -> bool {
        match v {
            Value::OpResult { op, idx } => self.ops.contains_key(op) && idx
                < self.ops[op].results.len(),
            Value::BlockArgument { block, idx } => self.blocks.contains_key(block) && idx
                < self.blocks[block].args.len(),
        }
    }

    /// Every operand and every successor names something that is there.
    pub open spec fn references_resolve(self) -> bool {
        &&& forall|o: OpId, i: int|
            #![trigger self.ops[o].operands[i]]
            self.ops.contains_key(o) && 0 <= i < self.ops[o].operands.len() ==> self.has_value(
                self.ops[o].operands[i],
            )
        &&& forall|o: OpId, i: int|
            #![trigger self.ops[o].successors[i]]
            self.ops.contains_key(o) && 0 <= i < self.ops[o].successors.len()
                ==> self.blocks.contains_key(self.ops[o].successors[i])
    }

    /// What holds of the representation at all times.
    #[verifier::opaque]
    pub open spec fn wf(self) -> bool {
        &&& self.ids_bounded()
        &&& self.ops_placed()
        &&& self.blocks_placed()
        &&& self.regions_placed()
        &&& self.references_resolve()
    }

    // ----- Reading -----

    /// What `v` names.
    pub open spec fn def(self, v: Value) -> Def {
        match v {
            Value::OpResult { op, idx } => self.ops[op].results[idx as int],
            Value::BlockArgument { block, idx } => self.blocks[block].args[idx as int],
        }
    }

    /// The types of the given values.
    pub open spec fn types_of(self, values: Seq<Value>) -> Seq<Type> {
        values.map_values(|v: Value| self.def(v).ty)
    }

    /// The arguments of a block, from the one at `first` on.
    pub open spec fn arguments_from(self, block: BlockId, first: int) -> Seq<Value> {
        Seq::new(
            if first <= self.blocks[block].args.len() {
                (self.blocks[block].args.len() - first) as nat
            } else {
                0
            },
            |i: int| Value::BlockArgument { block, idx: (first + i) as usize },
        )
    }

    /// Are all the given values there?
    pub open spec fn has_values(self, values: Seq<Value>) -> bool {
        forall|i: int| 0 <= i < values.len() ==> self.has_value(#[trigger] values[i])
    }

    /// Are all the given blocks there?
    pub open spec fn has_blocks(self, blocks: Seq<BlockId>) -> bool {
        forall|i: int|
            0 <= i < blocks.len() ==> self.blocks.contains_key(#[trigger] blocks[i])
    }

    /// Does no operation but `op` itself use a result of `op`?
    pub open spec fn unused(self, op: OpId) -> bool {
        forall|u: OpId, i: int|
            #![trigger self.ops[u].operands[i]]
            self.ops.contains_key(u) && u != op && 0 <= i < self.ops[u].operands.len()
                ==> !(self.ops[u].operands[i] matches Value::OpResult { op: d, .. } && d == op)
    }

    /// Is `op` in a block?
    pub open spec fn placed(self, op: OpId) -> bool {
        self.ops.contains_key(op) && self.ops[op].parent is Some
    }

    /// The position of `op` in the block that holds it.
    pub open spec fn position(self, op: OpId) -> int {
        self.blocks[self.ops[op].parent->0].ops.index_of(op)
    }

    /// The position of `block` in the region that holds it.
    pub open spec fn block_position(self, block: BlockId) -> int {
        self.regions[self.blocks[block].parent].blocks.index_of(block)
    }

    /// Does the insertion point name a place?
    pub open spec fn op_point_valid(self, at: OpInsertionPoint) -> bool {
        match at {
            OpInsertionPoint::Unset => false,
            OpInsertionPoint::AtBlockStart(b) | OpInsertionPoint::AtBlockEnd(
                b,
            ) => self.blocks.contains_key(b),
            OpInsertionPoint::BeforeOperation(o) | OpInsertionPoint::AfterOperation(
                o,
            ) => self.placed(o),
        }
    }

    /// The block in which the insertion point lies.
    pub open spec fn op_point_block(self, at: OpInsertionPoint) -> BlockId {
        match at {
            OpInsertionPoint::AtBlockStart(b) | OpInsertionPoint::AtBlockEnd(b) => b,
            OpInsertionPoint::BeforeOperation(o) | OpInsertionPoint::AfterOperation(
                o,
            ) => self.ops[o].parent->0,
            OpInsertionPoint::Unset => arbitrary(),
        }
    }

    /// How many operations of its block stand before the insertion point.
    pub open spec fn op_point_index(self, at: OpInsertionPoint) -> int {
        match at {
            OpInsertionPoint::AtBlockStart(_) => 0,
            OpInsertionPoint::AtBlockEnd(b) => self.blocks[b].ops.len() as int,
            OpInsertionPoint::BeforeOperation(o) => self.position(o),
            OpInsertionPoint::AfterOperation(o) => self.position(o) + 1,
            OpInsertionPoint::Unset => arbitrary(),
        }
    }

    /// Does the insertion point name a place?
    pub open spec fn block_point_valid(self, at: BlockInsertionPoint) -> bool {
        match at {
            BlockInsertionPoint::AtRegionStart(r) | BlockInsertionPoint::AtRegionEnd(
                r,
            ) => self.regions.contains_key(r),
            BlockInsertionPoint::BeforeBlock(b) | BlockInsertionPoint::AfterBlock(
                b,
            ) => self.blocks.contains_key(b),
        }
    }

    /// The region in which the insertion point lies.
    pub open spec fn block_point_region(self, at: BlockInsertionPoint) -> RegionId {
        match at {
            BlockInsertionPoint::AtRegionStart(r) | BlockInsertionPoint::AtRegionEnd(r) => r,
            BlockInsertionPoint::BeforeBlock(b) | BlockInsertionPoint::AfterBlock(
                b,
            ) => self.blocks[b].parent,
        }
    }

    /// How many blocks of its region stand before the insertion point.
    pub open spec fn block_point_index(self, at: BlockInsertionPoint) -> int {
        match at {
            BlockInsertionPoint::AtRegionStart(_) => 0,
            BlockInsertionPoint::AtRegionEnd(r) => self.regions[r].blocks.len() as int,
            BlockInsertionPoint::BeforeBlock(b) => self.block_position(b),
            BlockInsertionPoint::AfterBlock(b) => self.block_position(b) + 1,
        }
    }

    // ----- Elementary changes -----

    /// An operation is made, in no block, with empty regions.
    pub open spec fn created_op(
        self,
        kind: OpKind,
        result_types: Seq<Type>,
        operands: Seq<Value>,
        successors: Seq<BlockId>,
        num_regions: nat,
        segments: Seq<u32>,
    ) -> Ir {
        let op = self.op_at(0);
        Ir {
            ops: self.ops.insert(
                op,
                OpView {
                    kind,
                    results: Def::all_unnamed(result_types),
                    operands,
                    successors,
                    regions: Seq::new(num_regions, |i: int| self.region_at(i)),
                    segments,
                    parent: None,
                    loc: Location::Unknown,
                },
            ),
            regions: Map::new(
                |r: RegionId|
                    self.regions.contains_key(r) || self.next_region <= r < self.next_region
                        + num_regions,
                |r: RegionId|
                    if self.next_region <= r {
                        RegionView { blocks: Seq::empty(), parent: op }
                    } else {
                        self.regions[r]
                    },
            ),
            next_op: self.next_op + 1,
            next_region: self.next_region + num_regions,
            ..self
        }
    }

    /// An operation gets one more region, which is empty.
    pub open spec fn created_region(self, op: OpId) -> Ir {
        let region = self.region_at(0);
        Ir {
            ops: self.ops.insert(
                op,
                OpView { regions: self.ops[op].regions.push(region), ..self.ops[op] },
            ),
            regions: self.regions.insert(
                region,
                RegionView { blocks: Seq::empty(), parent: op },
            ),
            next_region: self.next_region + 1,
            ..self
        }
    }

    /// An empty block is made and inserted.
    pub open spec fn created_block(
        self,
        at: BlockInsertionPoint,
        label: Option<Seq<char>>,
        arg_types: Seq<Type>,
    ) -> Ir {
        let b = self.block_at(0);
        let r = self.block_point_region(at);
        Ir {
            blocks: self.blocks.insert(
                b,
                BlockView {
                    label,
                    args: Def::all_unnamed(arg_types),
                    ops: Seq::empty(),
                    parent: r,
                    loc: Location::Unknown,
                },
            ),
            regions: self.regions.insert(
                r,
                RegionView {
                    blocks: self.regions[r].blocks.insert(self.block_point_index(at), b),
                    ..self.regions[r]
                },
            ),
            next_block: self.next_block + 1,
            ..self
        }
    }

    /// An operation that is in no block is inserted into one.
    pub open spec fn inserted_op(self, op: OpId, at: OpInsertionPoint) -> Ir {
        let b = self.op_point_block(at);
        Ir {
            ops: self.ops.insert(op, OpView { parent: Some(b), ..self.ops[op] }),
            blocks: self.blocks.insert(
                b,
                BlockView {
                    ops: self.blocks[b].ops.insert(self.op_point_index(at), op),
                    ..self.blocks[b]
                },
            ),
            ..self
        }
    }

    /// An operation, and what follows it in its block, moves to the end of another block.
    pub open spec fn moved_tail(self, first: OpId, dest: BlockId) -> Ir {
        let b = self.ops[first].parent->0;
        let moved = self.blocks[b].ops.skip(self.position(first));
        Ir {
            ops: Map::new(
                |o: OpId| self.ops.contains_key(o),
                |o: OpId|
                    if moved.contains(o) {
                        OpView { parent: Some(dest), ..self.ops[o] }
                    } else {
                        self.ops[o]
                    },
            ),
            blocks: self.blocks.insert(
                b,
                BlockView {
                    ops: self.blocks[b].ops.take(self.position(first)),
                    ..self.blocks[b]
                },
            ).insert(
                dest,
                BlockView { ops: self.blocks[dest].ops + moved, ..self.blocks[dest] },
            ),
            ..self
        }
    }

    /// The blocks of region `src` move, in order, behind block `after` of another region.
    pub open spec fn inlined_region(self, src: RegionId, after: BlockId) -> Ir {
        let dest = self.blocks[after].parent;
        let moved = self.regions[src].blocks;
        let i = self.block_position(after) + 1;
        Ir {
            blocks: Map::new(
                |b: BlockId| self.blocks.contains_key(b),
                |b: BlockId|
                    if moved.contains(b) {
                        BlockView { parent: dest, ..self.blocks[b] }
                    } else {
                        self.blocks[b]
                    },
            ),
            regions: self.regions.insert(
                src,
                RegionView { blocks: Seq::empty(), ..self.regions[src] },
            ).insert(
                dest,
                RegionView {
                    blocks: self.regions[dest].blocks.take(i) + moved
                        + self.regions[dest].blocks.skip(i),
                    ..self.regions[dest]
                },
            ),
            ..self
        }
    }

    /// An operation whose results nothing uses, and whose regions are empty, goes away.
    pub open spec fn erased_op(self, op: OpId) -> Ir {
        Ir {
            ops: self.ops.remove(op),
            blocks: if self.ops[op].parent is Some {
                let b = self.ops[op].parent->0;
                self.blocks.insert(
                    b,
                    BlockView {
                        ops: self.blocks[b].ops.remove(self.position(op)),
                        ..self.blocks[b]
                    },
                )
            } else {
                self.blocks
            },
            regions: self.regions.remove_keys(self.ops[op].regions.to_set()),
            ..self
        }
    }

    /// The value that stands for `v` once the results of `op` are replaced, in order, by the
    /// arguments of `block` from the one at `first` on.
    pub open spec fn substituted(v: Value, op: OpId, block: BlockId, first: int) -> Value {
        match v {
            Value::OpResult { op: o, idx } if o == op => Value::BlockArgument {
                block,
                idx: (first + idx) as usize,
            },
            _ => v,
        }
    }

    /// Every use of a result of `op` becomes a use of an argument of `block`, and the
    /// arguments that have no name take those of the results they replace.
    pub open spec fn replaced_results(self, op: OpId, block: BlockId, first: int) -> Ir {
        let results = self.ops[op].results;
        Ir {
            ops: Map::new(
                |o: OpId| self.ops.contains_key(o),
                |o: OpId|
                    OpView {
                        operands: self.ops[o].operands.map_values(
                            |v: Value| Ir::substituted(v, op, block, first),
                        ),
                        ..self.ops[o]
                    },
            ),
            blocks: self.blocks.insert(
                block,
                BlockView {
                    args: Seq::new(
                        self.blocks[block].args.len(),
                        |i: int|
                            {
                                let arg = self.blocks[block].args[i];
                                if first <= i < first + results.len() && arg.name is None {
                                    Def { name: results[i - first].name, ..arg }
                                } else {
                                    arg
                                }
                            },
                    ),
                    ..self.blocks[block]
                },
            ),
            ..self
        }
    }

    /// An argument of a block gets another type.
    pub open spec fn retyped_argument(self, block: BlockId, idx: int, ty: Type) -> Ir {
        Ir {
            blocks: self.blocks.insert(
                block,
                BlockView {
                    args: self.blocks[block].args.update(
                        idx,
                        Def { ty, ..self.blocks[block].args[idx] },
                    ),
                    ..self.blocks[block]
                },
            ),
            ..self
        }
    }

    /// An argument of a block gets a name.
    pub open spec fn named_argument(self, block: BlockId, idx: int, name: Seq<char>) -> Ir {
        Ir {
            blocks: self.blocks.insert(
                block,
                BlockView {
                    args: self.blocks[block].args.update(
                        idx,
                        Def { name: Some(name), ..self.blocks[block].args[idx] },
                    ),
                    ..self.blocks[block]
                },
            ),
            ..self
        }
    }

    /// A result of an operation gets a name.
    pub open spec fn named_result(self, op: OpId, idx: int, name: Seq<char>) -> Ir {
        Ir {
            ops: self.ops.insert(
                op,
                OpView {
                    results: self.ops[op].results.update(
                        idx,
                        Def { name: Some(name), ..self.ops[op].results[idx] },
                    ),
                    ..self.ops[op]
                },
            ),
            ..self
        }
    }

    /// A block gets a location.
    pub open spec fn located_block(self, block: BlockId, loc: Location) -> Ir {
        Ir {
            blocks: self.blocks.insert(block, BlockView { loc, ..self.blocks[block] }),
            ..self
        }
    }

    /// An operation gets a location.
    pub open spec fn located_op(self, op: OpId, loc: Location) -> Ir {
        Ir { ops: self.ops.insert(op, OpView { loc, ..self.ops[op] }), ..self }
    }

    /// An operation gets other operands, in groups of other sizes.
    pub open spec fn set_operands(
        self,
        op: OpId,
        operands: Seq<Value>,
        segments: Seq<u32>,
    ) -> Ir {
        Ir {
            ops: self.ops.insert(op, OpView { operands, segments, ..self.ops[op] }),
            ..self
        }
    }
}

} // verus!
