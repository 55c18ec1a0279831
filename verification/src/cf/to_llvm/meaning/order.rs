//! What is in order stays so while another operation is lowered.

use crate::cf::to_llvm::meaning::whole::Replacement;
use crate::ir::model::Ir;
use crate::ir::types::{BlockId, OpId, Value};
use vstd::prelude::*;

verus! {

impl Ir {
    /// What is in an operation that is clear of another is clear of it.
    pub(crate) proof fn clear_inside(self, o: OpId, other: OpId, b: BlockId, k: int)
        requires
            self.clear(o, other),
            self.blocks.contains_key(b),
            self.ops[o].regions.contains(self.blocks[b].parent),
            0 <= k < self.blocks[b].ops.len(),
        ensures
            self.clear(self.blocks[b].ops[k], other),
    {
        assert forall|depth: nat| #[trigger]
            self.clear_to(self.blocks[b].ops[k], other, depth) by {
            assert(self.clear_to(o, other, depth + 1));
        }
    }

    /// If an operation is clear of another, so is what ends its regions.
    proof fn lenders_clear(self, op: OpId, other: OpId)
        requires
            self.wf(),
            self.clear(op, other),
        ensures
            self.lenders_spare(op, other),
    {
        assert(self.clear_to(op, other, 0));
        assert forall|y: OpId| #[trigger] self.ends(y, op) implies self.spares(y, other) by {
            let b = self.holder(y);
            self.position_in_range(y);
            self.ordered();
            self.clear_inside(op, other, b, self.position(y));
            assert(self.clear_to(y, other, 0));
        }
    }

    /// What an operation that is still there uses stays clear of another.
    proof fn still_spares(self, later: Ir, way: Replacement, o: OpId, other: OpId)
        requires
            self.same_but_renamed(later, way, o),
            self.spares(o, other),
        ensures
            later.spares(o, other),
    {
        let operands = later.ops[o].operands;
        assert forall|i: int| 0 <= i < operands.len() implies !Ir::is_result(
            #[trigger] operands[i],
            other,
        ) by {
            assert(!Ir::is_result(self.ops[o].operands[i], other));
        }
    }

    /// An operation in a block of an operation that is still there was in that, or in the replaced
    /// one, which was in it.
    pub(crate) proof fn was_inside(self, later: Ir, way: Replacement, o: OpId, b: BlockId, k: int)
        requires
            self.reshaped(later, way),
            self.kept(o, way.op),
            later.blocks.contains_key(b),
            later.ops[o].regions.contains(later.blocks[b].parent),
            0 <= k < later.blocks[b].ops.len(),
        ensures
            ({
                let c = later.blocks[b].ops[k];
                let held = self.blocks[self.holder(way.op)].parent;
                &&& self.comes_from(later, way, b, c)
                &&& self.regions.contains_key(later.blocks[b].parent)
                &&& self.ops.contains_key(c) ==> {
                    ||| self.ops[o].regions.contains(self.blocks[self.holder(c)].parent)
                    ||| self.ops[o].regions.contains(held) && self.ops[way.op].regions.contains(
                        self.blocks[self.holder(c)].parent,
                    )
                }
                &&& !self.ops.contains_key(c) ==> self.ops[o].regions.contains(held)
            }),
    {
        self.origin(later, way, b, k);
        self.ordered();
        assert(self.same_but_renamed(later, way, o));
        let r = later.blocks[b].parent;
        let i = self.ops[o].regions.index_of(r);
        self.region_there(o, i);
    }

    /// What was clear of another operation stays clear of it, and what is new is, if the replaced
    /// operation was.
    pub(crate) proof fn still_clear_to(
        self,
        later: Ir,
        way: Replacement,
        o: OpId,
        other: OpId,
        depth: nat,
    )
        requires
            self.reshaped(later, way),
            self.ops.contains_key(other),
            other != way.op,
            later.ops.contains_key(o),
            self.kept(o, way.op) && self.clear(o, other) || !self.ops.contains_key(o)
                && self.clear(way.op, other),
        ensures
            later.clear_to(o, other, depth),
        decreases depth,
    {
        let held = self.blocks[self.holder(way.op)].parent;
        self.position_in_range(way.op);
        if self.ops.contains_key(o) {
            assert(self.clear_to(o, other, 0));
            assert(self.same_but_renamed(later, way, o));
            self.still_spares(later, way, o, other);
        } else {
            self.lenders_clear(way.op, other);
            assert(self.new_op_reshaped(later, way, o));
        }
        if depth > 0 {
            let less = (depth - 1) as nat;
            assert forall|b: BlockId, k: int|
                #![trigger later.blocks[b].ops[k]]
                later.blocks.contains_key(b) && later.ops[o].regions.contains(
                    later.blocks[b].parent,
                ) && 0 <= k < later.blocks[b].ops.len() implies later.clear_to(
                later.blocks[b].ops[k],
                other,
                less,
            ) by {
                let c = later.blocks[b].ops[k];
                self.origin(later, way, b, k);
                self.ordered();
                if self.ops.contains_key(o) {
                    self.was_inside(later, way, o, b, k);
                    if self.ops[o].regions.contains(held) {
                        self.clear_inside(o, other, self.holder(way.op), self.position(way.op));
                    }
                }
                if self.ops.contains_key(c) {
                    let b0 = self.holder(c);
                    self.position_in_range(c);
                    if self.ops[way.op].regions.contains(self.blocks[b0].parent) && self.clear(
                        way.op,
                        other,
                    ) {
                        self.clear_inside(way.op, other, b0, self.position(c));
                    } else {
                        self.clear_inside(o, other, b0, self.position(c));
                    }
                }
                self.still_clear_to(later, way, c, other, less);
            }
        }
    }

    /// What is in an operation that leaves a value as it is leaves it so.
    pub(crate) proof fn fixed_deeper(self, o: OpId, v: Value, b: BlockId, k: int)
        requires
            self.fixed_by(o, v),
            self.blocks.contains_key(b),
            self.ops[o].regions.contains(self.blocks[b].parent),
            0 <= k < self.blocks[b].ops.len(),
        ensures
            self.fixed_by(self.blocks[b].ops[k], v),
    {
        assert forall|depth: nat| #[trigger]
            self.fixed_to(self.blocks[b].ops[k], v, depth) by {
            assert(self.fixed_to(o, v, depth + 1));
        }
    }

    /// What stands for a value.
    pub open spec fn now(way: Replacement, v: Value) -> Value {
        Ir::substituted(v, way.op, way.block, way.first)
    }

    /// A value that an operation did not define is still not defined by it, nor by what is new if
    /// the replaced operation did not.
    pub(crate) proof fn still_fixed_to(
        self,
        later: Ir,
        way: Replacement,
        o: OpId,
        v: Value,
        depth: nat,
    )
        requires
            self.reshaped(later, way),
            self.has_value(v),
            later.ops.contains_key(o),
            self.kept(o, way.op) && self.fixed_by(o, v) || !self.ops.contains_key(o)
                && self.fixed_by(way.op, v),
        ensures
            later.fixed_to(o, Ir::now(way, v), depth),
        decreases depth,
    {
        let held = self.blocks[self.holder(way.op)].parent;
        let w = Ir::now(way, v);
        self.position_in_range(way.op);
        self.ordered();
        if self.ops.contains_key(o) {
            assert(self.fixed_to(o, v, 0));
            assert(self.same_but_renamed(later, way, o));
        } else {
            assert(self.fixed_to(way.op, v, 0));
            assert(self.new_op_reshaped(later, way, o));
        }
        assert(!Ir::is_result(w, o));
        if depth > 0 {
            let less = (depth - 1) as nat;
            assert forall|b: BlockId| #[trigger]
                later.blocks.contains_key(b) && later.ops[o].regions.contains(
                    later.blocks[b].parent,
                ) implies !Ir::is_argument(w, b) by {
                assert(self.block_reshaped(later, way, b));
                if self.ops.contains_key(o) {
                    let r = later.blocks[b].parent;
                    self.region_there(o, self.ops[o].regions.index_of(r));
                    assert(self.fixed_to(o, v, 1));
                    if r == held {
                        self.fixed_deeper(o, v, self.holder(way.op), self.position(way.op));
                        assert(self.fixed_to(way.op, v, 1));
                    }
                } else {
                    assert(self.fixed_to(way.op, v, 1));
                }
            }
            assert forall|b: BlockId, k: int|
                #![trigger later.blocks[b].ops[k]]
                later.blocks.contains_key(b) && later.ops[o].regions.contains(
                    later.blocks[b].parent,
                ) && 0 <= k < later.blocks[b].ops.len() implies later.fixed_to(
                later.blocks[b].ops[k],
                w,
                less,
            ) by {
                let c = later.blocks[b].ops[k];
                self.origin(later, way, b, k);
                if self.ops.contains_key(o) {
                    self.was_inside(later, way, o, b, k);
                    if self.ops[o].regions.contains(held) {
                        self.fixed_deeper(o, v, self.holder(way.op), self.position(way.op));
                    }
                }
                if self.ops.contains_key(c) {
                    let b0 = self.holder(c);
                    self.position_in_range(c);
                    if self.ops[way.op].regions.contains(self.blocks[b0].parent) && self.fixed_by(
                        way.op,
                        v,
                    ) {
                        self.fixed_deeper(way.op, v, b0, self.position(c));
                    } else {
                        self.fixed_deeper(o, v, b0, self.position(c));
                    }
                }
                self.still_fixed_to(later, way, c, v, less);
            }
        }
    }

    /// The results of an operation that is still there are used only behind it if they were.
    pub(crate) proof fn still_used_only_behind(self, later: Ir, way: Replacement, other: OpId)
        requires
            self.reshaped(later, way),
            self.kept(other, way.op),
            self.placed(other),
            self.used_only_behind(other),
        ensures
            later.used_only_behind(other),
    {
        let held = self.blocks[self.holder(way.op)].parent;
        let (b, k) = self.lands(later, way, other);
        assert(self.same_but_renamed(later, way, other));
        self.still_spares(later, way, other, other);
        self.origin(later, way, b, k);
        self.position_in_range(way.op);
        self.position_in_range(other);
        self.ordered();
        assert forall|i: int| 0 <= i < later.position(other) implies later.clear(
            #[trigger] later.blocks[later.holder(other)].ops[i],
            other,
        ) by {
            let d = later.blocks[b].ops[i];
            self.origin(later, way, b, i);
            if self.ops.contains_key(d) {
                self.position_in_range(d);
                assert(self.clear(self.blocks[self.holder(other)].ops[self.position(d)], other));
            } else {
                assert(self.clear(
                    self.blocks[self.holder(other)].ops[self.position(way.op)],
                    other,
                ));
            }
            assert forall|depth: nat| #[trigger] later.clear_to(d, other, depth) by {
                self.still_clear_to(later, way, d, other, depth);
            }
        }
        assert forall|c: BlockId, i: int|
            #![trigger later.blocks[c].ops[i]]
            later.blocks.contains_key(c) && later.ops[other].regions.contains(
                later.blocks[c].parent,
            ) && 0 <= i < later.blocks[c].ops.len() implies later.clear(
            later.blocks[c].ops[i],
            other,
        ) by {
            let d = later.blocks[c].ops[i];
            self.origin(later, way, c, i);
            self.was_inside(later, way, other, c, i);
            if self.ops[other].regions.contains(held) {
                assert(self.clear(
                    self.blocks[self.holder(way.op)].ops[self.position(way.op)],
                    other,
                ));
            }
            if self.ops.contains_key(d) {
                let b0 = self.holder(d);
                self.position_in_range(d);
                assert(d == self.blocks[b0].ops[self.position(d)]);
                if !self.ops[other].regions.contains(self.blocks[b0].parent) {
                    self.clear_inside(way.op, other, b0, self.position(d));
                }
            }
            assert forall|depth: nat| #[trigger] later.clear_to(d, other, depth) by {
                self.still_clear_to(later, way, d, other, depth);
            }
        }
    }

    /// A value that nothing in a region of an operation defines is still not defined there.
    pub(crate) proof fn still_fixed_in(self, later: Ir, way: Replacement, o: OpId, i: int, v: Value)
        requires
            self.reshaped(later, way),
            self.kept(o, way.op),
            0 <= i < self.ops[o].regions.len(),
            self.has_value(v),
            self.fixed_in(self.ops[o].regions[i], v),
        ensures
            later.fixed_in(self.ops[o].regions[i], Ir::now(way, v)),
    {
        let region = self.ops[o].regions[i];
        let held = self.blocks[self.holder(way.op)].parent;
        let w = Ir::now(way, v);
        self.position_in_range(way.op);
        self.ordered();
        self.region_there(o, i);
        assert(self.same_but_renamed(later, way, o));
        assert(self.ops[o].regions.contains(region));
        if held == region {
            assert(self.fixed_by(
                self.blocks[self.holder(way.op)].ops[self.position(way.op)],
                v,
            ));
            assert(self.fixed_to(way.op, v, 0));
            assert(self.fixed_to(way.op, v, 1));
        }
        assert forall|b: BlockId| #[trigger]
            later.blocks.contains_key(b) && later.blocks[b].parent == region && Ir::is_argument(
                w,
                b,
            ) implies !later.targeted_in(region, b) by {
            assert(self.block_reshaped(later, way, b));
            assert(self.blocks.contains_key(b) && self.blocks[b].parent == region);
            assert forall|c: BlockId, k: int|
                #![trigger later.blocks[c].ops[k]]
                later.blocks.contains_key(c) && later.blocks[c].parent == region && 0 <= k
                    < later.blocks[c].ops.len() implies !later.ops[
            later.blocks[c].ops[k]].successors.contains(b) by {
                let d = later.blocks[c].ops[k];
                self.origin(later, way, c, k);
                if later.ops[d].successors.contains(b) {
                    if self.ops.contains_key(d) {
                        assert(self.same_but_renamed(later, way, d));
                        let b0 = self.holder(d);
                        self.position_in_range(d);
                        let j = self.ops[d].successors.index_of(b);
                        assert(self.blocks[self.ops[self.blocks[b0].ops[self.position(
                            d,
                        )]].successors[j]].parent == self.blocks[b0].parent);
                        assert(self.targeted_in(region, b));
                    } else {
                        assert(self.new_op_reshaped(later, way, d));
                        assert(self.ops[way.op].successors.contains(b));
                        assert(self.ops[self.blocks[self.holder(way.op)].ops[self.position(
                            way.op,
                        )]].successors.contains(b));
                        assert(self.targeted_in(region, b));
                    }
                }
            }
        }
        assert forall|b: BlockId, k: int|
            #![trigger later.blocks[b].ops[k]]
            later.blocks.contains_key(b) && later.blocks[b].parent == region && 0 <= k
                < later.blocks[b].ops.len() implies later.fixed_by(later.blocks[b].ops[k], w) by {
            let c = later.blocks[b].ops[k];
            self.origin(later, way, b, k);
            if self.ops.contains_key(c) {
                let b0 = self.holder(c);
                self.position_in_range(c);
                assert(c == self.blocks[b0].ops[self.position(c)]);
                if self.blocks[b0].parent != region {
                    self.fixed_deeper(way.op, v, b0, self.position(c));
                }
            }
            assert forall|depth: nat| #[trigger] later.fixed_to(c, w, depth) by {
                self.still_fixed_to(later, way, c, v, depth);
            }
        }
    }

    /// Branches still stay in their regions.
    pub(crate) proof fn still_stays(self, later: Ir, way: Replacement)
        requires
            self.reshaped(later, way),
        ensures
            later.branches_stay(),
    {
        self.ordered();
        assert forall|b: BlockId, k: int, j: int|
            #![trigger later.ops[later.blocks[b].ops[k]].successors[j]]
            later.blocks.contains_key(b) && 0 <= k < later.blocks[b].ops.len() && 0 <= j
                < later.ops[later.blocks[b].ops[k]].successors.len() implies later.blocks[
        later.ops[later.blocks[b].ops[k]].successors[j]].parent == later.blocks[b].parent by {
            let c = later.blocks[b].ops[k];
            self.origin(later, way, b, k);
            if self.ops.contains_key(c) {
                assert(self.same_but_renamed(later, way, c));
                let b0 = self.holder(c);
                self.position_in_range(c);
                self.successors_there(c);
                let to = self.ops[c].successors[j];
                assert(self.blocks[self.ops[self.blocks[b0].ops[self.position(
                    c,
                )]].successors[j]].parent == self.blocks[b0].parent);
                assert(self.blocks.contains_key(to));
                assert(self.block_reshaped(later, way, to));
                assert(self.block_reshaped(later, way, b));
                assert(self.blocks[to].parent == self.blocks[b0].parent);
                if self.regions[self.blocks[b0].parent].parent == way.op {
                    assert(b == b0);
                }
            }
        }
    }

    /// The regions of an operation that is still there end at the end of their last blocks alone
    /// if they did.
    pub(crate) proof fn still_ends_last(self, later: Ir, way: Replacement, other: OpId)
        requires
            self.reshaped(later, way),
            self.kept(other, way.op),
            self.ends_last(other),
            self.ends_last(way.op),
        ensures
            later.ends_last(other),
    {
        assert(self.same_but_renamed(later, way, other));
        self.ordered();
        assert forall|i: int, b: BlockId|
            #![trigger later.has_body(other, i), later.blocks[b]]
            later.has_body(other, i) && later.blocks.contains_key(b) && later.blocks[b].parent
                == later.ops[other].regions[i] && b != later.exit(other, i)
                && later.blocks[b].ops.len() > 0 implies !later.ops[
        later.blocks[b].ops.last()].kind.closes() by {
            let region = self.ops[other].regions[i];
            self.region_there(other, i);
            let n = later.blocks[b].ops.len() - 1;
            let c = later.blocks[b].ops[n];
            self.origin(later, way, b, n);
            assert(self.block_reshaped(later, way, b));
            if self.ops.contains_key(c) {
                assert(self.same_but_renamed(later, way, c));
                let b0 = self.holder(c);
                self.position_in_range(c);
                assert(self.blocks[b0].ops.last() == c);
                if self.blocks[b0].parent == region {
                    assert(self.has_body(other, i));
                    assert(b0 != self.exit(other, i));
                } else {
                    let j = self.ops[way.op].regions.index_of(self.blocks[b0].parent);
                    self.holder_region(c);
                    assert(self.has_body(way.op, j));
                    if b0 == self.exit(way.op, j) {
                        assert(self.ends(c, way.op));
                    }
                }
            }
        }
    }

    /// The regions of an operation that is still there yield outward if they did.
    pub(crate) proof fn still_yields_outward(self, later: Ir, way: Replacement, other: OpId, i: int)
        requires
            self.reshaped(later, way),
            self.kept(other, way.op),
            self.placed(other),
            self.used_only_behind(other),
            self.yields_outward(other, i),
        ensures
            later.yields_outward(other, i),
            later.entry(other, i) == self.entry(other, i),
            later.exit_op(other, i) == self.exit_op(other, i),
            self.kept(self.exit_op(other, i), way.op),
            self.same_but_renamed(later, way, self.exit_op(other, i)),
            later.blocks[self.entry(other, i)].args.len() == self.blocks[self.entry(
                other,
                i,
            )].args.len(),
    {
        let held = self.blocks[self.holder(way.op)].parent;
        let region = self.ops[other].regions[i];
        let (b, k) = self.lands(later, way, other);
        assert(self.same_but_renamed(later, way, other));
        self.ordered();
        self.region_there(other, i);
        self.entry_exit_in_range(other, i);
        let y = self.exit_op(other, i);
        assert(y != way.op);
        assert(self.kept(y, way.op));
        assert(self.same_but_renamed(later, way, y));
        let (c, m) = self.lands(later, way, y);
        self.position_in_range(y);
        self.position_in_range(way.op);
        assert(later.regions[region].blocks.last() == self.moved_end(way, self.exit(other, i)));
        assert(self.block_reshaped(later, way, self.entry(other, i)));
        assert(later.exit(other, i) == c);
        assert(later.blocks[b].parent != region) by {
            if later.blocks[b].parent == region {
                let was = self.blocks[self.holder(other)].parent;
                assert(held == region && self.regions[was].parent == way.op);
                assert(self.ops[other].regions.contains(region));
                assert(self.clear(
                    self.blocks[self.holder(way.op)].ops[self.position(way.op)],
                    other,
                ));
                self.position_in_range(other);
                self.clear_inside(way.op, other, self.holder(other), self.position(other));
                assert(self.clear_to(other, other, 0));
            }
        }
    }
}

} // verus!
