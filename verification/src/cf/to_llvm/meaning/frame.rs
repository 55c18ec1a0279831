//! What depends only on where things are, and on what uses what.

use crate::ir::model::Ir;
use crate::ir::types::{BlockId, OpId, RegionId, Value};
use vstd::prelude::*;

verus! {

impl Ir {
    /// Is everything in the same place, and are the same values used and the same blocks branched
    /// to, though maybe by operations of other kinds?
    pub open spec fn same_frame(self, later: Ir) -> bool {
        &&& forall|o: OpId| #[trigger]
            later.ops.contains_key(o) == self.ops.contains_key(o)
        &&& forall|o: OpId| #![trigger later.ops[o]]
            #![trigger self.ops[o]]
            {
                &&& later.ops[o].operands == self.ops[o].operands
                &&& later.ops[o].successors == self.ops[o].successors
                &&& later.ops[o].regions == self.ops[o].regions
                &&& later.ops[o].parent == self.ops[o].parent
            }
        &&& later.regions == self.regions
        &&& forall|b: BlockId| #[trigger]
            later.blocks.contains_key(b) == self.blocks.contains_key(b)
        &&& forall|b: BlockId| #![trigger later.blocks[b]]
            #![trigger self.blocks[b]]
            {
                &&& later.blocks[b].ops == self.blocks[b].ops
                &&& later.blocks[b].parent == self.blocks[b].parent
                &&& later.blocks[b].args.len() == self.blocks[b].args.len()
            }
    }

    /// What is clear of an operation is so in the same frame.
    pub(crate) proof fn frame_clear(self, later: Ir, o: OpId, op: OpId, depth: nat)
        requires
            self.same_frame(later),
        ensures
            later.clear_to(o, op, depth) == self.clear_to(o, op, depth),
        decreases depth,
    {
        assert(later.spares(o, op) == self.spares(o, op));
        if depth > 0 {
            let less = (depth - 1) as nat;
            assert forall|b: BlockId, i: int|
                #![trigger self.blocks[b].ops[i]]
                #![trigger later.blocks[b].ops[i]]
                later.clear_to(later.blocks[b].ops[i], op, less) == self.clear_to(
                    self.blocks[b].ops[i],
                    op,
                    less,
                ) by {
                assert(later.blocks[b].ops == self.blocks[b].ops);
                self.frame_clear(later, self.blocks[b].ops[i], op, less);
            }
            if self.clear_to(o, op, depth) {
                assert forall|b: BlockId, i: int|
                    #![trigger later.blocks[b].ops[i]]
                    later.blocks.contains_key(b) && later.ops[o].regions.contains(
                        later.blocks[b].parent,
                    ) && 0 <= i < later.blocks[b].ops.len() implies later.clear_to(
                    later.blocks[b].ops[i],
                    op,
                    less,
                ) by {
                    assert(self.clear_to(self.blocks[b].ops[i], op, less));
                }
            }
            if later.clear_to(o, op, depth) {
                assert forall|b: BlockId, i: int|
                    #![trigger self.blocks[b].ops[i]]
                    self.blocks.contains_key(b) && self.ops[o].regions.contains(
                        self.blocks[b].parent,
                    ) && 0 <= i < self.blocks[b].ops.len() implies self.clear_to(
                    self.blocks[b].ops[i],
                    op,
                    less,
                ) by {
                    assert(later.clear_to(later.blocks[b].ops[i], op, less));
                }
            }
        }
    }

    /// What leaves a value as it is does so in the same frame.
    pub(crate) proof fn frame_fixed(self, later: Ir, o: OpId, v: Value, depth: nat)
        requires
            self.same_frame(later),
            self.fixed_to(o, v, depth),
        ensures
            later.fixed_to(o, v, depth),
        decreases depth,
    {
        if depth > 0 {
            let less = (depth - 1) as nat;
            assert forall|b: BlockId| #[trigger]
                later.blocks.contains_key(b) && later.ops[o].regions.contains(
                    later.blocks[b].parent,
                ) implies !Ir::is_argument(v, b) by {
                assert(self.blocks.contains_key(b));
                assert(self.blocks[b].parent == later.blocks[b].parent);
            }
            assert forall|b: BlockId, i: int|
                #![trigger later.blocks[b].ops[i]]
                later.blocks.contains_key(b) && later.ops[o].regions.contains(
                    later.blocks[b].parent,
                ) && 0 <= i < later.blocks[b].ops.len() implies later.fixed_to(
                later.blocks[b].ops[i],
                v,
                less,
            ) by {
                assert(later.blocks[b].ops == self.blocks[b].ops);
                assert(self.fixed_to(self.blocks[b].ops[i], v, less));
                self.frame_fixed(later, self.blocks[b].ops[i], v, less);
            }
        }
    }

    /// So does what is in a region.
    pub(crate) proof fn frame_fixed_in(self, later: Ir, region: RegionId, v: Value)
        requires
            self.same_frame(later),
            self.fixed_in(region, v),
        ensures
            later.fixed_in(region, v),
    {
        assert forall|b: BlockId| #[trigger]
            later.blocks.contains_key(b) && later.blocks[b].parent == region && Ir::is_argument(
                v,
                b,
            ) implies !later.targeted_in(region, b) by {
            assert(self.blocks.contains_key(b));
            assert(self.blocks[b].parent == region);
            assert forall|c: BlockId, k: int|
                #![trigger later.blocks[c].ops[k]]
                later.blocks.contains_key(c) && later.blocks[c].parent == region && 0 <= k
                    < later.blocks[c].ops.len() implies !later.ops[
            later.blocks[c].ops[k]].successors.contains(b) by {
                assert(later.blocks[c].ops[k] == self.blocks[c].ops[k]);
            }
        }
        assert forall|b: BlockId, k: int|
            #![trigger later.blocks[b].ops[k]]
            later.blocks.contains_key(b) && later.blocks[b].parent == region && 0 <= k
                < later.blocks[b].ops.len() implies later.fixed_by(later.blocks[b].ops[k], v) by {
            let c = self.blocks[b].ops[k];
            assert(c == later.blocks[b].ops[k]);
            assert(self.fixed_by(self.blocks[b].ops[k], v));
            assert forall|depth: nat| #[trigger] later.fixed_to(c, v, depth) by {
                assert(self.fixed_to(c, v, depth));
                self.frame_fixed(later, c, v, depth);
            }
        }
    }

    /// Branches stay in their regions in the same frame.
    pub(crate) proof fn frame_stays(self, later: Ir)
        requires
            self.same_frame(later),
        ensures
            self.branches_stay() ==> later.branches_stay(),
    {
        if self.branches_stay() {
            assert forall|b: BlockId, k: int, j: int|
                #![trigger later.ops[later.blocks[b].ops[k]].successors[j]]
                later.blocks.contains_key(b) && 0 <= k < later.blocks[b].ops.len() && 0 <= j
                    < later.ops[later.blocks[b].ops[k]].successors.len() implies later.blocks[
            later.ops[later.blocks[b].ops[k]].successors[j]].parent == later.blocks[b].parent by {
                assert(self.blocks.contains_key(b));
                assert(self.blocks[b].ops == later.blocks[b].ops);
                assert(self.blocks[self.ops[self.blocks[b].ops[k]].successors[j]].parent
                    == self.blocks[b].parent);
            }
        }
    }

    /// Results that are used only behind their operation are so in the same frame.
    pub(crate) proof fn frame_used_only_behind(self, later: Ir, op: OpId)
        requires
            self.same_frame(later),
            self.used_only_behind(op),
        ensures
            later.used_only_behind(op),
    {
        assert(later.spares(op, op) == self.spares(op, op));
        assert(later.position(op) == self.position(op));
        assert forall|i: int| 0 <= i < later.position(op) implies later.clear(
            #[trigger] later.blocks[later.holder(op)].ops[i],
            op,
        ) by {
            let c = self.blocks[self.holder(op)].ops[i];
            assert(self.clear(self.blocks[self.holder(op)].ops[i], op));
            assert forall|depth: nat| #[trigger] later.clear_to(c, op, depth) by {
                assert(self.clear_to(c, op, depth));
                self.frame_clear(later, c, op, depth);
            }
        }
        assert forall|b: BlockId, i: int|
            #![trigger later.blocks[b].ops[i]]
            later.blocks.contains_key(b) && later.ops[op].regions.contains(
                later.blocks[b].parent,
            ) && 0 <= i < later.blocks[b].ops.len() implies later.clear(
            later.blocks[b].ops[i],
            op,
        ) by {
            let c = self.blocks[b].ops[i];
            assert(c == later.blocks[b].ops[i]);
            assert(self.clear(self.blocks[b].ops[i], op));
            assert forall|depth: nat| #[trigger] later.clear_to(c, op, depth) by {
                assert(self.clear_to(c, op, depth));
                self.frame_clear(later, c, op, depth);
            }
        }
    }
}

} // verus!
