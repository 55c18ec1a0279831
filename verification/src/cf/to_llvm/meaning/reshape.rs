//! What a lowering leaves in order.

use crate::cf::to_llvm::meaning::whole::Replacement;
use crate::ir::model::Ir;
use crate::ir::types::{BlockId, OpId, RegionId};
use vstd::prelude::*;

verus! {

impl Ir {
    /// Is the operation there, and neither `op` nor what ends a region of `op`?
    pub open spec fn kept(self, o: OpId, op: OpId) -> bool {
        self.ops.contains_key(o) && o != op && !self.ends(o, op)
    }

    /// Is this the last block of a region of `op`, and not empty?
    pub open spec fn closing_block(self, b: BlockId, op: OpId) -> bool {
        &&& self.blocks.contains_key(b)
        &&& self.blocks[b].ops.len() > 0
        &&& self.regions[self.blocks[b].parent].parent == op
        &&& self.regions[self.blocks[b].parent].blocks.last() == b
    }

    /// The operations with which a block begins once the operation has been replaced, of those
    /// that were there, and of what is in its place.
    pub open spec fn kept_ops(self, way: Replacement, b: BlockId) -> Seq<OpId> {
        let holder = self.holder(way.op);
        let p = self.position(way.op);
        if b == holder {
            if way.cont == holder {
                self.blocks[b].ops.update(p, way.new)
            } else {
                self.blocks[b].ops.take(p)
            }
        } else if self.blocks.contains_key(b) {
            if self.closing_block(b, way.op) {
                self.blocks[b].ops.drop_last()
            } else {
                self.blocks[b].ops
            }
        } else if b == way.cont {
            self.blocks[holder].ops.skip(p + 1)
        } else {
            Seq::empty()
        }
    }

    /// Does a block go on with something new behind the operations with which it begins?
    pub open spec fn goes_on(self, way: Replacement, b: BlockId) -> bool {
        let holder = self.holder(way.op);
        if b == holder {
            way.cont != holder
        } else if self.blocks.contains_key(b) {
            self.closing_block(b, way.op)
        } else {
            b != way.cont
        }
    }

    /// Do neither `op` nor what ends its regions use a result of `other`?
    pub open spec fn lenders_spare(self, op: OpId, other: OpId) -> bool {
        &&& self.spares(op, other)
        &&& forall|y: OpId| #[trigger] self.ends(y, op) ==> self.spares(y, other)
    }

    /// Is a block of the later representation, as far as its place goes, what is left of one that
    /// was there, or new and in the region that held the operation, or in a new region?
    pub open spec fn block_reshaped(self, later: Ir, way: Replacement, b: BlockId) -> bool {
        let r = later.blocks[b].parent;
        let held = self.blocks[self.holder(way.op)].parent;
        let near = r == held || !self.regions.contains_key(r);
        let kept = self.kept_ops(way, b);
        let now = later.blocks[b].ops;
        &&& if self.blocks.contains_key(b) {
            &&& later.blocks[b].args.len() == self.blocks[b].args.len()
            &&& if self.regions[self.blocks[b].parent].parent == way.op {
                near
            } else {
                r == self.blocks[b].parent
            }
        } else {
            near
        }
        &&& if self.goes_on(way, b) {
            kept.len() < now.len()
        } else {
            kept.len() == now.len()
        }
        &&& forall|k: int| 0 <= k < kept.len() ==> #[trigger] now[k] == kept[k]
        &&& forall|k: int|
            kept.len() <= k < now.len() ==> !self.ops.contains_key(#[trigger] now[k])
        &&& now.len() > 0 && !self.ops.contains_key(now.last()) && self.regions.contains_key(r)
            ==> !later.ops[now.last()].kind.closes()
    }

    /// Is a new operation in order? Its regions are new; it uses results of an operation that was
    /// there only if the replaced one, or what ended its regions, did; and it leads only to new
    /// blocks, into the replaced operation, or to where that led.
    pub open spec fn new_op_reshaped(self, later: Ir, way: Replacement, c: OpId) -> bool {
        let view = later.ops[c];
        &&& forall|r: RegionId|
            view.regions.contains(r) ==> !(#[trigger] self.regions.contains_key(r))
        &&& forall|other: OpId|
            self.ops.contains_key(other) && other != way.op && #[trigger] self.lenders_spare(
                way.op,
                other,
            ) ==> later.spares(c, other)
        &&& forall|b: BlockId| #[trigger]
            view.successors.contains(b) && self.blocks.contains_key(b) ==> self.regions[
            self.blocks[b].parent].parent == way.op || self.ops[way.op].successors.contains(b)
    }

    /// Was the operation replaced such that all else stays in order?
    pub open spec fn reshaped(self, later: Ir, way: Replacement) -> bool {
        &&& self.wf()
        &&& later.wf()
        &&& self.surrounded(later, way)
        &&& self.enclosed(later, way)
        &&& !self.ops.contains_key(way.new)
        &&& self.ops[way.op].results.len() > 0 ==> later.blocks.contains_key(way.block)
            && later.blocks[way.block].parent == self.blocks[self.holder(way.op)].parent
        &&& forall|o: OpId| #[trigger]
            self.kept(o, way.op) ==> self.same_but_renamed(later, way, o)
        &&& forall|b: BlockId| #[trigger]
            self.blocks.contains_key(b) ==> later.blocks.contains_key(b)
        &&& forall|b: BlockId, c: BlockId|
            #![trigger self.blocks[b], self.blocks[c]]
            self.blocks.contains_key(b) && self.blocks.contains_key(c) && self.regions[
            self.blocks[b].parent].parent == way.op && self.regions[self.blocks[c].parent].parent
                == way.op ==> later.blocks[b].parent == later.blocks[c].parent
        &&& forall|b: BlockId| #[trigger]
            later.blocks.contains_key(b) ==> self.block_reshaped(later, way, b)
        &&& forall|c: OpId| #[trigger]
            later.ops.contains_key(c) && !self.ops.contains_key(c) ==> self.new_op_reshaped(
                later,
                way,
                c,
            )
        &&& forall|b: BlockId, k: int, j: int|
            #![trigger later.ops[later.blocks[b].ops[k]].successors[j]]
            later.blocks.contains_key(b) && 0 <= k < later.blocks[b].ops.len()
                && !self.ops.contains_key(later.blocks[b].ops[k]) && 0 <= j
                < later.ops[later.blocks[b].ops[k]].successors.len() ==> later.blocks[
            later.ops[later.blocks[b].ops[k]].successors[j]].parent == later.blocks[b].parent
    }

    /// Where an operation in a block of the later representation comes from. If it was there, it
    /// was in a block of the same region, or in the replaced operation, whose region was this one
    /// or is now a new one. If it was not, the replaced operation was in this region, or the
    /// region is new.
    pub open spec fn comes_from(self, later: Ir, way: Replacement, b: BlockId, c: OpId) -> bool {
        let r = later.blocks[b].parent;
        let held = self.blocks[self.holder(way.op)].parent;
        let near = r == held || !self.regions.contains_key(r);
        if self.ops.contains_key(c) {
            let was = self.blocks[self.holder(c)].parent;
            &&& self.kept(c, way.op)
            &&& self.placed(c)
            &&& self.blocks.contains_key(self.holder(c))
            &&& was == r || near && self.regions[was].parent == way.op
            &&& later.blocks[b].ops.last() == c <==> self.blocks[self.holder(c)].ops.last() == c
            &&& b == if self.holder(c) == self.holder(way.op) && self.position(c)
                > self.position(way.op) {
                way.cont
            } else {
                self.holder(c)
            }
        } else {
            near
        }
    }

    /// Every operation in a block of the later representation comes from somewhere, and so does
    /// what precedes it.
    pub(crate) proof fn origin(self, later: Ir, way: Replacement, b: BlockId, k: int)
        requires
            self.reshaped(later, way),
            later.blocks.contains_key(b),
            0 <= k < later.blocks[b].ops.len(),
        ensures
            self.comes_from(later, way, b, later.blocks[b].ops[k]),
            later.ops.contains_key(later.blocks[b].ops[k]),
            ({
                let c = later.blocks[b].ops[k];
                self.ops.contains_key(c) ==> forall|j: int| 0 <= j < k ==> {
                    let d = #[trigger] later.blocks[b].ops[j];
                    if self.ops.contains_key(d) {
                        self.holder(d) == self.holder(c) && self.position(d) < self.position(c)
                    } else {
                        self.holder(c) == self.holder(way.op) && self.position(c) > self.position(
                            way.op,
                        )
                    }
                }
            }),
    {
        assert(self.block_reshaped(later, way, b));
        later.position_unique(b, k);
        let holder = self.holder(way.op);
        let p = self.position(way.op);
        let now = later.blocks[b].ops;
        let kept = self.kept_ops(way, b);
        let c = now[k];
        self.position_in_range(way.op);
        self.ordered();
        if self.ops.contains_key(c) {
            assert(k < kept.len());
            assert(c == kept[k]);
            let b0 = if self.blocks.contains_key(b) {
                b
            } else {
                holder
            };
            let shift = if self.blocks.contains_key(b) {
                0
            } else {
                p + 1
            };
            assert(b == holder || self.blocks.contains_key(b) || b == way.cont);
            assert(c == self.blocks[b0].ops[k + shift]);
            self.position_unique(b0, k + shift);
            let ops = self.blocks[b0].ops;
            self.position_unique(b0, ops.len() - 1);
            assert(self.holder(c) == b0);
            assert(self.position(c) == k + shift);
            assert(c != way.op);
            assert(!self.ends(c, way.op));
            assert forall|j: int| 0 <= j < k implies {
                let d = #[trigger] now[j];
                if self.ops.contains_key(d) {
                    self.holder(d) == self.holder(c) && self.position(d) < self.position(c)
                } else {
                    self.holder(c) == holder && self.position(c) > p
                }
            } by {
                assert(now[j] == kept[j]);
                self.position_unique(b0, j + shift);
            }
            later.position_unique(b, now.len() - 1);
            if self.goes_on(way, b) {
                assert(!self.ops.contains_key(now.last()));
                assert(ops.last() != c);
            } else {
                assert(now.last() == kept[now.len() - 1]);
                assert(now.last() == c <==> ops.last() == c);
            }
        } else if self.blocks.contains_key(b) && b != holder && !self.closing_block(b, way.op) {
            assert(c == kept[k]);
            self.position_unique(b, k);
            assert(false);
        }
    }

    /// Where an operation that is still there is now: the block and the position in it.
    pub(crate) proof fn lands(self, later: Ir, way: Replacement, o: OpId) -> (at: (BlockId, int))
        requires
            self.reshaped(later, way),
            self.kept(o, way.op),
            self.placed(o),
        ensures
            later.placed(o),
            later.blocks.contains_key(at.0),
            0 <= at.1 < later.blocks[at.0].ops.len(),
            later.blocks[at.0].ops[at.1] == o,
            later.holder(o) == at.0,
            later.position(o) == at.1,
            self.comes_from(later, way, at.0, o),
    {
        let holder = self.holder(way.op);
        let p = self.position(way.op);
        let b0 = self.holder(o);
        let q = self.position(o);
        self.position_in_range(way.op);
        self.position_in_range(o);
        self.position_unique(b0, self.blocks[b0].ops.len() - 1);
        let (b, k) = if b0 == holder && q > p && way.cont != holder {
            (way.cont, q - p - 1)
        } else {
            (b0, q)
        };
        assert(later.blocks.contains_key(b));
        assert(self.block_reshaped(later, way, b));
        let kept = self.kept_ops(way, b);
        assert(0 <= k < kept.len() && kept[k] == o);
        assert(later.blocks[b].ops[k] == kept[k]);
        later.position_unique(b, k);
        self.origin(later, way, b, k);
        (b, k)
    }
}

} // verus!
