//! Every elementary change keeps the intermediate representation well formed.

use crate::ir::model::Ir;
use crate::ir::types::{
    BlockId, BlockInsertionPoint, OpId, OpInsertionPoint, OpKind, RegionId, Type, Value,
};
use vstd::prelude::*;

verus! {

impl Ir {
    /// Making an operation keeps the representation well formed.
    pub proof fn created_op_wf(
        self,
        kind: OpKind,
        result_types: Seq<Type>,
        operands: Seq<Value>,
        successors: Seq<BlockId>,
        num_regions: nat,
        segments: Seq<u32>,
    )
        requires
            self.wf(),
            self.has_values(operands),
            self.has_blocks(successors),
            self.next_op < usize::MAX,
            self.next_region + num_regions <= usize::MAX,
        ensures
            self.created_op(
                kind,
                result_types,
                operands,
                successors,
                num_regions,
                segments,
            ).wf(),
    {
        reveal(Ir::wf);
        let post = self.created_op(
            kind,
            result_types,
            operands,
            successors,
            num_regions,
            segments,
        );
        let op = self.op_at(0);
        assert(!self.ops.contains_key(op));
        assert(forall|o: OpId| self.ops.contains_key(o) ==> #[trigger] post.ops[o] == self.ops[o]);
        assert(forall|r: RegionId|
            self.regions.contains_key(r) ==> #[trigger] post.regions[r] == self.regions[r]);
        assert forall|r: RegionId| #[trigger] post.regions.contains_key(r) implies ({
            &&& post.ops.contains_key(post.regions[r].parent)
            &&& post.ops[post.regions[r].parent].regions.contains(r)
        }) by {
            if self.next_region <= r {
                assert(post.ops[op].regions[r - self.next_region] == r);
            } else {
                assert(self.regions.contains_key(r));
            }
        }
        assert(forall|v: Value| #[trigger] self.has_value(v) ==> post.has_value(v));
    }

    /// Adding a region keeps the representation well formed.
    pub proof fn created_region_wf(self, op: OpId)
        requires
            self.wf(),
            self.ops.contains_key(op),
            self.next_region < usize::MAX,
        ensures
            self.created_region(op).wf(),
    {
        reveal(Ir::wf);
        let post = self.created_region(op);
        let region = self.region_at(0);
        let regions = self.ops[op].regions;
        assert(!self.regions.contains_key(region));
        assert(!regions.contains(region)) by {
            if regions.contains(region) {
                assert(self.regions.contains_key(self.ops[op].regions[regions.index_of(region)]));
            }
        }
        assert(regions.push(region)[regions.len() as int] == region);
        assert(forall|o: OpId| post.ops.contains_key(o) == self.ops.contains_key(o));
        assert forall|r: RegionId| #[trigger] post.regions.contains_key(r) implies ({
            &&& post.ops.contains_key(post.regions[r].parent)
            &&& post.ops[post.regions[r].parent].regions.contains(r)
        }) by {
            if r != region {
                assert(self.regions.contains_key(r));
                let o = self.regions[r].parent;
                if o == op {
                    let k = regions.index_of(r);
                    assert(regions.push(region)[k] == r);
                }
            }
        }
        assert forall|o: OpId, i: int|
            #![trigger post.ops[o].regions[i]]
            post.ops.contains_key(o) && 0 <= i < post.ops[o].regions.len() implies ({
            &&& post.regions.contains_key(post.ops[o].regions[i])
            &&& post.regions[post.ops[o].regions[i]].parent == o
        }) by {
            assert(self.ops.contains_key(o));
            if o == op && i == regions.len() {
            } else {
                assert(post.ops[o].regions[i] == self.ops[o].regions[i]);
            }
        }
        assert(post.ops_placed()) by {
            assert forall|b: BlockId, i: int|
                #![trigger post.blocks[b].ops[i]]
                post.blocks.contains_key(b) && 0 <= i < post.blocks[b].ops.len() implies ({
                &&& post.ops.contains_key(post.blocks[b].ops[i])
                &&& post.ops[post.blocks[b].ops[i]].parent == Some(b)
            }) by {
                assert(self.ops.contains_key(self.blocks[b].ops[i]));
            }
        }
        assert(post.blocks_placed()) by {
            assert forall|r: RegionId, i: int|
                #![trigger post.regions[r].blocks[i]]
                post.regions.contains_key(r) && 0 <= i < post.regions[r].blocks.len() implies ({
                &&& post.blocks.contains_key(post.regions[r].blocks[i])
                &&& post.blocks[post.regions[r].blocks[i]].parent == r
            }) by {
                assert(post.regions[r].blocks[i] == self.regions[r].blocks[i]);
            }
        }
        assert(forall|v: Value| #[trigger] self.has_value(v) ==> post.has_value(v));
    }

    /// Making a block keeps the representation well formed.
    pub proof fn created_block_wf(
        self,
        at: BlockInsertionPoint,
        label: Option<Seq<char>>,
        arg_types: Seq<Type>,
    )
        requires
            self.wf(),
            self.block_point_valid(at),
            self.next_block < usize::MAX,
        ensures
            self.created_block(at, label, arg_types).wf(),
            self.created_block(at, label, arg_types).regions[self.block_point_region(
                at,
            )].blocks.contains(self.block_at(0)),
    {
        reveal(Ir::wf);
        let post = self.created_block(at, label, arg_types);
        let new = self.block_at(0);
        let r = self.block_point_region(at);
        let i = self.block_point_index(at);
        let old_blocks = self.regions[r].blocks;
        let new_blocks = post.regions[r].blocks;
        self.block_point_in_range(at);
        assert(!self.blocks.contains_key(new));
        old_blocks.insert_ensures(i, new);
        assert(new_blocks[i] == new);
        assert(new_blocks.no_duplicates());
        assert forall|b: BlockId| #[trigger] post.blocks.contains_key(b) implies ({
            &&& post.regions.contains_key(post.blocks[b].parent)
            &&& post.regions[post.blocks[b].parent].blocks.contains(b)
        }) by {
            if b != new {
                assert(self.blocks.contains_key(b));
                if self.blocks[b].parent == r {
                    let k = old_blocks.index_of(b);
                    assert(old_blocks[k] == b);
                    if k < i {
                        assert(new_blocks[k] == b);
                    } else {
                        assert(new_blocks[k + 1] == b);
                    }
                }
            }
        }
        assert forall|r2: RegionId, k: int|
            #![trigger post.regions[r2].blocks[k]]
            post.regions.contains_key(r2) && 0 <= k < post.regions[r2].blocks.len() implies ({
            &&& post.blocks.contains_key(post.regions[r2].blocks[k])
            &&& post.blocks[post.regions[r2].blocks[k]].parent == r2
        }) by {
            if r2 == r {
                if k < i {
                    assert(new_blocks[k] == old_blocks[k]);
                } else if k > i {
                    assert(new_blocks[k] == old_blocks[k - 1]);
                }
            } else {
                assert(post.regions[r2] == self.regions[r2]);
                assert(self.blocks.contains_key(self.regions[r2].blocks[k]));
            }
        }
        assert(forall|v: Value| #[trigger] self.has_value(v) ==> post.has_value(v));
        assert(forall|b: BlockId| self.blocks.contains_key(b) ==> #[trigger] post.blocks[b]
            == self.blocks[b]);
    }

    /// An insertion point in a region lies between two of its blocks, or at an end.
    pub proof fn block_point_in_range(self, at: BlockInsertionPoint)
        requires
            self.wf(),
            self.block_point_valid(at),
        ensures
            self.regions.contains_key(self.block_point_region(at)),
            0 <= self.block_point_index(at) <= self.regions[self.block_point_region(
                at,
            )].blocks.len(),
    {
        reveal(Ir::wf);
        match at {
            BlockInsertionPoint::BeforeBlock(b) | BlockInsertionPoint::AfterBlock(b) => {
                self.block_position_in_range(b);
            },
            _ => {},
        }
    }

    /// A block is found at its position.
    pub proof fn block_position_in_range(self, b: BlockId)
        requires
            self.wf(),
            self.blocks.contains_key(b),
        ensures
            self.regions.contains_key(self.blocks[b].parent),
            0 <= self.block_position(b) < self.regions[self.blocks[b].parent].blocks.len(),
            self.regions[self.blocks[b].parent].blocks[self.block_position(b)] == b,
    {
        reveal(Ir::wf);
        assert(self.regions[self.blocks[b].parent].blocks.contains(b));
    }

    /// An operation is found at its position.
    pub proof fn position_in_range(self, o: OpId)
        requires
            self.wf(),
            self.placed(o),
        ensures
            self.blocks.contains_key(self.ops[o].parent->0),
            0 <= self.position(o) < self.blocks[self.ops[o].parent->0].ops.len(),
            self.blocks[self.ops[o].parent->0].ops[self.position(o)] == o,
    {
        reveal(Ir::wf);
        assert(self.blocks[self.ops[o].parent->0].ops.contains(o));
    }

    /// An operation's position is the only place where it is found.
    pub proof fn position_unique(self, b: BlockId, i: int)
        requires
            self.wf(),
            self.blocks.contains_key(b),
            0 <= i < self.blocks[b].ops.len(),
        ensures
            self.placed(self.blocks[b].ops[i]),
            self.ops[self.blocks[b].ops[i]].parent == Some(b),
            self.position(self.blocks[b].ops[i]) == i,
    {
        reveal(Ir::wf);
        let o = self.blocks[b].ops[i];
        assert(self.ops.contains_key(o) && self.ops[o].parent == Some(b));
        self.position_in_range(o);
    }

    /// A block's position is the only place where it is found.
    pub proof fn block_position_unique(self, r: RegionId, i: int)
        requires
            self.wf(),
            self.regions.contains_key(r),
            0 <= i < self.regions[r].blocks.len(),
        ensures
            self.blocks.contains_key(self.regions[r].blocks[i]),
            self.blocks[self.regions[r].blocks[i]].parent == r,
            self.block_position(self.regions[r].blocks[i]) == i,
    {
        reveal(Ir::wf);
        let b = self.regions[r].blocks[i];
        assert(self.blocks.contains_key(b) && self.blocks[b].parent == r);
        self.block_position_in_range(b);
    }

    /// A region of an operation is there.
    pub proof fn region_there(self, op: OpId, i: int)
        requires
            self.wf(),
            self.ops.contains_key(op),
            0 <= i < self.ops[op].regions.len(),
        ensures
            self.regions.contains_key(self.ops[op].regions[i]),
            self.regions[self.ops[op].regions[i]].parent == op,
    {
        reveal(Ir::wf);
    }

    /// The blocks in a region are those whose parent it is.
    pub proof fn members(self, r: RegionId)
        requires
            self.wf(),
            self.regions.contains_key(r),
        ensures
            forall|b: BlockId| #[trigger]
                self.regions[r].blocks.contains(b) <==> self.blocks.contains_key(b)
                    && self.blocks[b].parent == r,
    {
        reveal(Ir::wf);
        let blocks = self.regions[r].blocks;
        assert forall|b: BlockId| #[trigger] blocks.contains(b) <==> self.blocks.contains_key(b)
            && self.blocks[b].parent == r by {
            if blocks.contains(b) {
                self.block_position_unique(r, blocks.index_of(b));
            }
        }
    }

    /// An insertion point in a block lies between two of its operations, or at an end.
    pub proof fn op_point_in_range(self, at: OpInsertionPoint)
        requires
            self.wf(),
            self.op_point_valid(at),
        ensures
            self.blocks.contains_key(self.op_point_block(at)),
            0 <= self.op_point_index(at) <= self.blocks[self.op_point_block(at)].ops.len(),
    {
        reveal(Ir::wf);
        match at {
            OpInsertionPoint::BeforeOperation(o) | OpInsertionPoint::AfterOperation(o) => {
                self.position_in_range(o);
            },
            _ => {},
        }
    }

    /// Inserting an operation keeps the representation well formed.
    pub proof fn inserted_op_wf(self, op: OpId, at: OpInsertionPoint)
        requires
            self.wf(),
            self.ops.contains_key(op),
            self.ops[op].parent is None,
            self.op_point_valid(at),
        ensures
            self.inserted_op(op, at).wf(),
    {
        reveal(Ir::wf);
        let post = self.inserted_op(op, at);
        let b = self.op_point_block(at);
        let i = self.op_point_index(at);
        self.op_point_in_range(at);
        let old_ops = self.blocks[b].ops;
        let new_ops = post.blocks[b].ops;
        old_ops.insert_ensures(i, op);
        assert(new_ops[i] == op);
        assert(!old_ops.contains(op)) by {
            if old_ops.contains(op) {
                let k = old_ops.index_of(op);
                assert(self.ops[self.blocks[b].ops[k]].parent == Some(b));
            }
        }
        assert(new_ops.no_duplicates());
        assert forall|o: OpId| #[trigger] post.ops.contains_key(o) && post.ops[o].parent is Some
            implies ({
            &&& post.blocks.contains_key(post.ops[o].parent->0)
            &&& post.blocks[post.ops[o].parent->0].ops.contains(o)
        }) by {
            if o != op {
                assert(self.ops.contains_key(o));
                if self.ops[o].parent == Some(b) {
                    let k = old_ops.index_of(o);
                    assert(old_ops[k] == o);
                    if k < i {
                        assert(new_ops[k] == o);
                    } else {
                        assert(new_ops[k + 1] == o);
                    }
                }
            }
        }
        assert forall|b2: BlockId, k: int|
            #![trigger post.blocks[b2].ops[k]]
            post.blocks.contains_key(b2) && 0 <= k < post.blocks[b2].ops.len() implies ({
            &&& post.ops.contains_key(post.blocks[b2].ops[k])
            &&& post.ops[post.blocks[b2].ops[k]].parent == Some(b2)
        }) by {
            if b2 == b {
                if k < i {
                    assert(new_ops[k] == old_ops[k]);
                } else if k > i {
                    assert(new_ops[k] == old_ops[k - 1]);
                }
            } else {
                assert(post.blocks[b2] == self.blocks[b2]);
                assert(self.ops.contains_key(self.blocks[b2].ops[k]));
                assert(self.ops[self.blocks[b2].ops[k]].parent == Some(b2));
            }
        }
        assert(post.ops.dom() =~= self.ops.dom());
        assert(post.blocks.dom() =~= self.blocks.dom());
        post.same_structure_wf(self);
    }

    /// Blocks, regions and references that agree with a well-formed representation are in
    /// order themselves.
    pub proof fn same_structure_wf(self, other: Ir)
        requires
            other.wf(),
            self.ids_bounded(),
            self.ops_placed(),
            self.ops.dom() == other.ops.dom(),
            self.blocks.dom() == other.blocks.dom(),
            self.regions == other.regions,
            forall|o: OpId| #[trigger]
                self.ops.contains_key(o) ==> {
                    &&& self.ops[o].regions == other.ops[o].regions
                    &&& self.ops[o].results.len() == other.ops[o].results.len()
                    &&& self.ops[o].successors == other.ops[o].successors
                    &&& self.ops[o].operands == other.ops[o].operands
                },
            forall|b: BlockId| #[trigger]
                self.blocks.contains_key(b) ==> {
                    &&& self.blocks[b].parent == other.blocks[b].parent
                    &&& self.blocks[b].args.len() == other.blocks[b].args.len()
                },
        ensures
            self.wf(),
    {
        reveal(Ir::wf);
        assert(forall|o: OpId| self.ops.contains_key(o) == other.ops.contains_key(o));
        assert(forall|b: BlockId| self.blocks.contains_key(b) == other.blocks.contains_key(b));
        assert forall|v: Value| #[trigger] other.has_value(v) implies self.has_value(v) by {
            match v {
                Value::OpResult { op, .. } => {
                    assert(self.ops.contains_key(op));
                },
                Value::BlockArgument { block, .. } => {
                    assert(self.blocks.contains_key(block));
                },
            }
        }
        assert(self.blocks_placed()) by {
            assert forall|r: RegionId, i: int|
                #![trigger self.regions[r].blocks[i]]
                self.regions.contains_key(r) && 0 <= i < self.regions[r].blocks.len() implies ({
                &&& self.blocks.contains_key(self.regions[r].blocks[i])
                &&& self.blocks[self.regions[r].blocks[i]].parent == r
            }) by {
                assert(other.blocks.contains_key(other.regions[r].blocks[i]));
            }
        }
        assert(self.regions_placed()) by {
            assert forall|o: OpId, i: int|
                #![trigger self.ops[o].regions[i]]
                self.ops.contains_key(o) && 0 <= i < self.ops[o].regions.len() implies ({
                &&& self.regions.contains_key(self.ops[o].regions[i])
                &&& self.regions[self.ops[o].regions[i]].parent == o
            }) by {
                assert(other.regions.contains_key(other.ops[o].regions[i]));
            }
        }
        assert(self.references_resolve()) by {
            assert forall|o: OpId, i: int|
                #![trigger self.ops[o].operands[i]]
                self.ops.contains_key(o) && 0 <= i < self.ops[o].operands.len() implies self.has_value(
                self.ops[o].operands[i],
            ) by {
                assert(other.has_value(other.ops[o].operands[i]));
            }
            assert forall|o: OpId, i: int|
                #![trigger self.ops[o].successors[i]]
                self.ops.contains_key(o) && 0 <= i < self.ops[o].successors.len() implies self.blocks.contains_key(
            self.ops[o].successors[i]) by {
                assert(other.blocks.contains_key(other.ops[o].successors[i]));
            }
        }
    }

    /// Moving the end of a block keeps the representation well formed.
    pub proof fn moved_tail_wf(self, first: OpId, dest: BlockId)
        requires
            self.wf(),
            self.placed(first),
            self.blocks.contains_key(dest),
            self.ops[first].parent != Some(dest),
        ensures
            self.moved_tail(first, dest).wf(),
    {
        reveal(Ir::wf);
        let post = self.moved_tail(first, dest);
        let b = self.ops[first].parent->0;
        self.position_in_range(first);
        let k = self.position(first);
        let old_ops = self.blocks[b].ops;
        let moved = old_ops.skip(k);
        let there = self.blocks[dest].ops;
        assert forall|i: int| k <= i < old_ops.len() implies moved.contains(
            #[trigger] old_ops[i],
        ) by {
            assert(moved[i - k] == old_ops[i]);
        }
        assert forall|i: int| 0 <= i < k implies !moved.contains(#[trigger] old_ops[i]) by {
            if moved.contains(old_ops[i]) {
                let j = moved.index_of(old_ops[i]);
                assert(old_ops[k + j] == old_ops[i]);
            }
        }
        assert forall|o: OpId| #[trigger] moved.contains(o) implies self.ops.contains_key(o)
            && self.ops[o].parent == Some(b) by {
            let j = moved.index_of(o);
            assert(old_ops[k + j] == o);
            assert(self.blocks[b].ops[k + j] == o);
        }
        assert((there + moved).no_duplicates()) by {
            assert forall|i: int, j: int|
                0 <= i < (there + moved).len() && 0 <= j < (there + moved).len() && i != j implies (
            there + moved)[i] != (there + moved)[j] by {
                if i < there.len() {
                    assert(self.ops[self.blocks[dest].ops[i]].parent == Some(dest));
                } else {
                    assert(moved.contains(moved[i - there.len()]));
                }
                if j < there.len() {
                    assert(self.ops[self.blocks[dest].ops[j]].parent == Some(dest));
                } else {
                    assert(moved.contains(moved[j - there.len()]));
                }
                if i >= there.len() && j >= there.len() {
                    assert(old_ops[k + i - there.len()] != old_ops[k + j - there.len()]);
                }
            }
        }
        assert forall|o: OpId| #[trigger] post.ops.contains_key(o) && post.ops[o].parent is Some
            implies ({
            &&& post.blocks.contains_key(post.ops[o].parent->0)
            &&& post.blocks[post.ops[o].parent->0].ops.contains(o)
        }) by {
            assert(self.ops.contains_key(o));
            if moved.contains(o) {
                let j = moved.index_of(o);
                assert((there + moved)[there.len() + j] == o);
            } else {
                self.position_in_range(o);
                let i = self.position(o);
                if self.ops[o].parent == Some(b) {
                    assert(old_ops[i] == o);
                    assert(i < k);
                    assert(old_ops.take(k)[i] == o);
                } else if self.ops[o].parent == Some(dest) {
                    assert((there + moved)[i] == o);
                }
            }
        }
        assert forall|b2: BlockId, i: int|
            #![trigger post.blocks[b2].ops[i]]
            post.blocks.contains_key(b2) && 0 <= i < post.blocks[b2].ops.len() implies ({
            &&& post.ops.contains_key(post.blocks[b2].ops[i])
            &&& post.ops[post.blocks[b2].ops[i]].parent == Some(b2)
        }) by {
            if b2 == dest {
                if i < there.len() {
                    assert(post.blocks[b2].ops[i] == self.blocks[dest].ops[i]);
                } else {
                    assert(moved.contains(moved[i - there.len()]));
                }
            } else if b2 == b {
                assert(post.blocks[b2].ops[i] == self.blocks[b].ops[i]);
                assert(old_ops[i] == self.blocks[b].ops[i]);
            } else {
                assert(post.blocks[b2].ops[i] == self.blocks[b2].ops[i]);
            }
        }
        assert(post.ops.dom() =~= self.ops.dom());
        assert(post.blocks.dom() =~= self.blocks.dom());
        post.same_structure_wf(self);
    }

    /// Moving the blocks of a region keeps the representation well formed.
    pub proof fn inlined_region_wf(self, src: RegionId, after: BlockId)
        requires
            self.wf(),
            self.regions.contains_key(src),
            self.blocks.contains_key(after),
            self.blocks[after].parent != src,
        ensures
            self.inlined_region(src, after).wf(),
    {
        reveal(Ir::wf);
        let post = self.inlined_region(src, after);
        let dest = self.blocks[after].parent;
        self.block_position_in_range(after);
        let k = self.block_position(after) + 1;
        let there = self.regions[dest].blocks;
        let moved = self.regions[src].blocks;
        let now = there.take(k) + moved + there.skip(k);
        let n = moved.len() as int;
        assert forall|i: int| 0 <= i < now.len() implies #[trigger] now[i] == (if i < k {
            there[i]
        } else if i < k + n {
            moved[i - k]
        } else {
            there[i - n]
        }) by {}
        assert forall|b: BlockId| #[trigger] moved.contains(b) implies self.blocks.contains_key(b)
            && self.blocks[b].parent == src by {
            let j = moved.index_of(b);
            assert(self.regions[src].blocks[j] == b);
        }
        assert forall|i: int| 0 <= i < there.len() implies self.blocks.contains_key(
            #[trigger] there[i],
        ) && self.blocks[there[i]].parent == dest by {
            assert(self.regions[dest].blocks[i] == there[i]);
        }
        assert(now.no_duplicates()) by {
            assert forall|i: int, j: int|
                0 <= i < now.len() && 0 <= j < now.len() && i != j implies now[i] != now[j] by {
                if k <= i < k + n {
                    assert(moved.contains(moved[i - k]));
                }
                if k <= j < k + n {
                    assert(moved.contains(moved[j - k]));
                }
            }
        }
        assert forall|b: BlockId| #[trigger] post.blocks.contains_key(b) implies ({
            &&& post.regions.contains_key(post.blocks[b].parent)
            &&& post.regions[post.blocks[b].parent].blocks.contains(b)
        }) by {
            assert(self.blocks.contains_key(b));
            if moved.contains(b) {
                let j = moved.index_of(b);
                assert(now[k + j] == b);
            } else {
                self.block_position_in_range(b);
                let i = self.block_position(b);
                if self.blocks[b].parent == dest {
                    if i < k {
                        assert(now[i] == b);
                    } else {
                        assert(now[i + n] == b);
                    }
                } else if self.blocks[b].parent == src {
                    assert(moved[i] == b);
                }
            }
        }
        assert forall|r: RegionId, i: int|
            #![trigger post.regions[r].blocks[i]]
            post.regions.contains_key(r) && 0 <= i < post.regions[r].blocks.len() implies ({
            &&& post.blocks.contains_key(post.regions[r].blocks[i])
            &&& post.blocks[post.regions[r].blocks[i]].parent == r
        }) by {
            if r == dest {
                assert(post.regions[r].blocks[i] == now[i]);
                if k <= i < k + n {
                    assert(moved.contains(moved[i - k]));
                }
            } else {
                assert(post.regions[r].blocks[i] == self.regions[r].blocks[i]);
            }
        }
        assert(post.regions_placed()) by {
            assert(forall|r: RegionId| post.regions.contains_key(r) == self.regions.contains_key(r));
            assert(forall|r: RegionId| #[trigger] post.regions.contains_key(r) ==> post.regions[r].parent
                == self.regions[r].parent);
            assert forall|o: OpId, i: int|
                #![trigger post.ops[o].regions[i]]
                post.ops.contains_key(o) && 0 <= i < post.ops[o].regions.len() implies ({
                &&& post.regions.contains_key(post.ops[o].regions[i])
                &&& post.regions[post.ops[o].regions[i]].parent == o
            }) by {
                assert(self.regions.contains_key(self.ops[o].regions[i]));
            }
        }
        assert(forall|v: Value| #[trigger] self.has_value(v) ==> post.has_value(v));
        assert forall|o: OpId, i: int|
            #![trigger post.ops[o].successors[i]]
            post.ops.contains_key(o) && 0 <= i < post.ops[o].successors.len() implies post.blocks.contains_key(
        post.ops[o].successors[i]) by {
            assert(self.blocks.contains_key(self.ops[o].successors[i]));
        }
        assert(post.ops_placed()) by {
            assert forall|b: BlockId, i: int|
                #![trigger post.blocks[b].ops[i]]
                post.blocks.contains_key(b) && 0 <= i < post.blocks[b].ops.len() implies ({
                &&& post.ops.contains_key(post.blocks[b].ops[i])
                &&& post.ops[post.blocks[b].ops[i]].parent == Some(b)
            }) by {
                assert(post.blocks[b].ops[i] == self.blocks[b].ops[i]);
            }
        }
    }

    /// Erasing an operation keeps the representation well formed.
    pub proof fn erased_op_wf(self, op: OpId)
        requires
            self.wf(),
            self.ops.contains_key(op),
            self.unused(op),
            forall|i: int|
                0 <= i < self.ops[op].regions.len() ==> self.regions[#[trigger] self.ops[op].regions[i]].blocks.len()
                    == 0,
        ensures
            self.erased_op(op).wf(),
    {
        reveal(Ir::wf);
        let post = self.erased_op(op);
        let gone = self.ops[op].regions;
        assert forall|r: RegionId| #[trigger]
            self.regions.contains_key(r) && gone.to_set().contains(r) implies self.regions[r].parent
            == op && self.regions[r].blocks.len() == 0 by {
            let i = gone.index_of(r);
            assert(self.ops[op].regions[i] == r);
        }
        assert forall|r: RegionId| #[trigger] post.regions.contains_key(r) implies post.regions[r]
            == self.regions[r] && self.regions.contains_key(r) && self.regions[r].parent != op by {
            if self.regions[r].parent == op {
                assert(self.ops[op].regions.contains(r));
            }
        }
        assert(post.ops_placed()) by {
            if self.ops[op].parent is Some {
                let b = self.ops[op].parent->0;
                self.position_in_range(op);
                let k = self.position(op);
                let old_ops = self.blocks[b].ops;
                let new_ops = post.blocks[b].ops;
                old_ops.remove_ensures(k);
                assert(forall|i: int|
                    0 <= i < new_ops.len() ==> #[trigger] new_ops[i] == (if i < k {
                        old_ops[i]
                    } else {
                        old_ops[i + 1]
                    }));
                assert(new_ops.no_duplicates());
                assert forall|o: OpId| #[trigger]
                    post.ops.contains_key(o) && post.ops[o].parent is Some implies ({
                    &&& post.blocks.contains_key(post.ops[o].parent->0)
                    &&& post.blocks[post.ops[o].parent->0].ops.contains(o)
                }) by {
                    assert(self.ops.contains_key(o));
                    self.position_in_range(o);
                    let i = self.position(o);
                    if self.ops[o].parent == Some(b) {
                        if i < k {
                            assert(new_ops[i] == o);
                        } else {
                            assert(new_ops[i - 1] == o);
                        }
                    }
                }
                assert forall|b2: BlockId, i: int|
                    #![trigger post.blocks[b2].ops[i]]
                    post.blocks.contains_key(b2) && 0 <= i < post.blocks[b2].ops.len() implies ({
                    &&& post.ops.contains_key(post.blocks[b2].ops[i])
                    &&& post.ops[post.blocks[b2].ops[i]].parent == Some(b2)
                }) by {
                    if b2 == b {
                        if i < k {
                            assert(self.blocks[b].ops[i] != op);
                        } else {
                            assert(self.blocks[b].ops[i + 1] != op);
                        }
                    } else {
                        assert(post.blocks[b2].ops[i] == self.blocks[b2].ops[i]);
                    }
                }
            } else {
                assert forall|b2: BlockId, i: int|
                    #![trigger post.blocks[b2].ops[i]]
                    post.blocks.contains_key(b2) && 0 <= i < post.blocks[b2].ops.len() implies ({
                    &&& post.ops.contains_key(post.blocks[b2].ops[i])
                    &&& post.ops[post.blocks[b2].ops[i]].parent == Some(b2)
                }) by {
                    assert(post.blocks[b2].ops[i] == self.blocks[b2].ops[i]);
                }
                assert forall|o: OpId| #[trigger]
                    post.ops.contains_key(o) && post.ops[o].parent is Some implies ({
                    &&& post.blocks.contains_key(post.ops[o].parent->0)
                    &&& post.blocks[post.ops[o].parent->0].ops.contains(o)
                }) by {
                    assert(self.ops.contains_key(o));
                }
            }
        }
        assert(post.blocks_placed()) by {
            assert forall|r: RegionId, i: int|
                #![trigger post.regions[r].blocks[i]]
                post.regions.contains_key(r) && 0 <= i < post.regions[r].blocks.len() implies ({
                &&& post.blocks.contains_key(post.regions[r].blocks[i])
                &&& post.blocks[post.regions[r].blocks[i]].parent == r
            }) by {
                assert(post.regions[r].blocks[i] == self.regions[r].blocks[i]);
            }
            assert forall|b: BlockId| #[trigger] post.blocks.contains_key(b) implies ({
                &&& post.regions.contains_key(post.blocks[b].parent)
                &&& post.regions[post.blocks[b].parent].blocks.contains(b)
            }) by {
                assert(self.blocks.contains_key(b));
                self.block_position_in_range(b);
            }
        }
        assert(post.regions_placed()) by {
            assert forall|o: OpId, i: int|
                #![trigger post.ops[o].regions[i]]
                post.ops.contains_key(o) && 0 <= i < post.ops[o].regions.len() implies ({
                &&& post.regions.contains_key(post.ops[o].regions[i])
                &&& post.regions[post.ops[o].regions[i]].parent == o
            }) by {
                assert(self.ops.contains_key(o));
                assert(self.regions.contains_key(self.ops[o].regions[i]));
            }
            assert forall|r: RegionId| #[trigger] post.regions.contains_key(r) implies ({
                &&& post.ops.contains_key(post.regions[r].parent)
                &&& post.ops[post.regions[r].parent].regions.contains(r)
            }) by {
                assert(self.regions.contains_key(r));
            }
        }
        assert(post.references_resolve()) by {
            assert(forall|b: BlockId| #[trigger] post.blocks.contains_key(b)
                == self.blocks.contains_key(b));
            assert(forall|b: BlockId| #[trigger] self.blocks.contains_key(b) ==> post.blocks[b].args
                == self.blocks[b].args);
            assert forall|o: OpId, i: int|
                #![trigger post.ops[o].operands[i]]
                post.ops.contains_key(o) && 0 <= i < post.ops[o].operands.len() implies post.has_value(
            post.ops[o].operands[i]) by {
                assert(self.ops.contains_key(o));
                assert(self.has_value(self.ops[o].operands[i]));
            }
            assert forall|o: OpId, i: int|
                #![trigger post.ops[o].successors[i]]
                post.ops.contains_key(o) && 0 <= i < post.ops[o].successors.len() implies post.blocks.contains_key(
            post.ops[o].successors[i]) by {
                assert(self.blocks.contains_key(self.ops[o].successors[i]));
            }
        }
    }

    /// Replacing results by arguments keeps the representation well formed, and leaves the
    /// results without a use.
    pub proof fn replaced_results_wf(self, op: OpId, block: BlockId, first: int)
        requires
            self.wf(),
            self.ops.contains_key(op),
            self.blocks.contains_key(block),
            0 <= first,
            first + self.ops[op].results.len() <= self.blocks[block].args.len() <= usize::MAX,
        ensures
            self.replaced_results(op, block, first).wf(),
            self.replaced_results(op, block, first).unused(op),
    {
        reveal(Ir::wf);
        let post = self.replaced_results(op, block, first);
        assert(post.ops.dom() =~= self.ops.dom());
        assert(post.blocks.dom() =~= self.blocks.dom());
        assert forall|o: OpId, i: int|
            #![trigger post.ops[o].operands[i]]
            post.ops.contains_key(o) && 0 <= i < post.ops[o].operands.len() implies ({
            &&& post.has_value(post.ops[o].operands[i])
            &&& !(post.ops[o].operands[i] matches Value::OpResult { op: d, .. } && d == op)
        }) by {
            assert(self.ops.contains_key(o));
            assert(self.has_value(self.ops[o].operands[i]));
        }
        assert(post.references_resolve()) by {
            assert forall|o: OpId, i: int|
                #![trigger post.ops[o].successors[i]]
                post.ops.contains_key(o) && 0 <= i < post.ops[o].successors.len() implies post.blocks.contains_key(
            post.ops[o].successors[i]) by {
                assert(self.blocks.contains_key(self.ops[o].successors[i]));
            }
        }
        assert(post.ops_placed()) by {
            assert forall|b: BlockId, i: int|
                #![trigger post.blocks[b].ops[i]]
                post.blocks.contains_key(b) && 0 <= i < post.blocks[b].ops.len() implies ({
                &&& post.ops.contains_key(post.blocks[b].ops[i])
                &&& post.ops[post.blocks[b].ops[i]].parent == Some(b)
            }) by {
                assert(post.blocks[b].ops[i] == self.blocks[b].ops[i]);
            }
        }
        assert(post.blocks_placed()) by {
            assert forall|r: RegionId, i: int|
                #![trigger post.regions[r].blocks[i]]
                post.regions.contains_key(r) && 0 <= i < post.regions[r].blocks.len() implies ({
                &&& post.blocks.contains_key(post.regions[r].blocks[i])
                &&& post.blocks[post.regions[r].blocks[i]].parent == r
            }) by {
                assert(self.blocks.contains_key(self.regions[r].blocks[i]));
            }
        }
        assert(post.regions_placed()) by {
            assert forall|o: OpId, i: int|
                #![trigger post.ops[o].regions[i]]
                post.ops.contains_key(o) && 0 <= i < post.ops[o].regions.len() implies ({
                &&& post.regions.contains_key(post.ops[o].regions[i])
                &&& post.regions[post.ops[o].regions[i]].parent == o
            }) by {
                assert(self.regions.contains_key(self.ops[o].regions[i]));
            }
        }
    }

    /// Changes to types, names and locations keep the representation well formed.
    pub proof fn annotated_wf(self, other: Ir)
        requires
            other.wf(),
            self.regions == other.regions,
            self.next_op == other.next_op,
            self.next_block == other.next_block,
            self.next_region == other.next_region,
            self.ops.dom() == other.ops.dom(),
            self.blocks.dom() == other.blocks.dom(),
            forall|o: OpId| #[trigger]
                self.ops.contains_key(o) ==> {
                    &&& self.ops[o].parent == other.ops[o].parent
                    &&& self.ops[o].regions == other.ops[o].regions
                    &&& self.ops[o].results.len() == other.ops[o].results.len()
                    &&& self.ops[o].successors == other.ops[o].successors
                    &&& self.ops[o].operands == other.ops[o].operands
                },
            forall|b: BlockId| #[trigger]
                self.blocks.contains_key(b) ==> {
                    &&& self.blocks[b].ops == other.blocks[b].ops
                    &&& self.blocks[b].parent == other.blocks[b].parent
                    &&& self.blocks[b].args.len() == other.blocks[b].args.len()
                },
        ensures
            self.wf(),
    {
        reveal(Ir::wf);
        assert(forall|o: OpId| self.ops.contains_key(o) == other.ops.contains_key(o));
        assert(forall|b: BlockId| self.blocks.contains_key(b) == other.blocks.contains_key(b));
        assert(self.ops_placed()) by {
            assert forall|b: BlockId, i: int|
                #![trigger self.blocks[b].ops[i]]
                self.blocks.contains_key(b) && 0 <= i < self.blocks[b].ops.len() implies ({
                &&& self.ops.contains_key(self.blocks[b].ops[i])
                &&& self.ops[self.blocks[b].ops[i]].parent == Some(b)
            }) by {
                assert(other.ops.contains_key(other.blocks[b].ops[i]));
            }
        }
        self.same_structure_wf(other);
    }

    /// Giving an operation other operands keeps the representation well formed.
    pub proof fn set_operands_wf(self, op: OpId, operands: Seq<Value>, segments: Seq<u32>)
        requires
            self.wf(),
            self.ops.contains_key(op),
            self.has_values(operands),
        ensures
            self.set_operands(op, operands, segments).wf(),
    {
        reveal(Ir::wf);
        let post = self.set_operands(op, operands, segments);
        assert(forall|v: Value| #[trigger] self.has_value(v) ==> post.has_value(v));
    }
}

} // verus!
