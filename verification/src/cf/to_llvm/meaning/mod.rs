//! Lowering keeps what the operations mean.

pub mod branch;
pub mod conversion;
pub mod converse;
pub mod ending;
pub mod exact;
pub mod for_op;
pub mod frame;
pub mod nd_for;
pub mod nested;
pub mod order;
pub mod others;
pub mod program;
pub mod regions;
pub mod reshape;
pub mod retyping;
pub mod shapes;
pub mod single;
pub mod whole;

use crate::cf::semantics::State;
use crate::ir::model::Ir;
use crate::ir::types::{BlockId, OpId, RegionId, Value};
use vstd::prelude::*;

verus! {

impl Ir {
    /// Are the results of an operation used neither by itself, nor by what precedes it in its
    /// block, nor by what is in its regions?
    pub open spec fn used_only_behind(self, op: OpId) -> bool {
        &&& self.spares(op, op)
        &&& forall|i: int|
            0 <= i < self.position(op) ==> self.clear(
                #[trigger] self.blocks[self.holder(op)].ops[i],
                op,
            )
        &&& forall|b: BlockId, i: int|
            #![trigger self.blocks[b].ops[i]]
            self.blocks.contains_key(b) && self.ops[op].regions.contains(self.blocks[b].parent)
                && 0 <= i < self.blocks[b].ops.len() ==> self.clear(self.blocks[b].ops[i], op)
    }

    /// The state behind an operation, from the one at the start of its block, if all that
    /// precedes it and the operation itself come to an end within the given number of steps.
    pub open spec fn ran_through(
        self,
        acts: spec_fn(OpId, Seq<int>, int) -> (Seq<int>, int),
        op: OpId,
        s: State,
        fuel: nat,
    ) -> Option<State> {
        let ops = self.blocks[self.holder(op)].ops;
        self.ran_all(acts, ops.take(self.position(op) + 1), s, fuel)
    }

    /// Do two states, before and after a lowering, agree on all that was there before, where
    /// the arguments of `block`, from the one at `first` on, stand for the results of `op`?
    pub open spec fn agree_behind(
        self,
        op: OpId,
        block: BlockId,
        first: int,
        s: State,
        t: State,
    ) -> bool {
        &&& s.world == t.world
        &&& forall|v: Value| #[trigger]
            self.has_value(v) ==> (s.values)(v) == (t.values)(
                Ir::substituted(v, op, block, first),
            )
    }

    /// Are the blocks of a region now in another one, and still the same but for the last one?
    pub open spec fn moved_region(self, later: Ir, region: RegionId, now: RegionId) -> bool {
        forall|b: BlockId| #[trigger]
            self.blocks.contains_key(b) && self.blocks[b].parent == region
                ==> later.blocks.contains_key(b) && later.blocks[b].parent == now && (b
                != self.regions[region].blocks.last() ==> later.blocks[b].ops
                == self.blocks[b].ops)
    }

    /// Values that are no results of `op` stand for themselves.
    proof fn substituted_same(vs: Seq<Value>, op: OpId, block: BlockId, first: int)
        requires
            forall|i: int| 0 <= i < vs.len() ==> !Ir::is_result(#[trigger] vs[i], op),
        ensures
            vs.map_values(|v: Value| Ir::substituted(v, op, block, first)) == vs,
    {
        let f = |v: Value| Ir::substituted(v, op, block, first);
        assert forall|i: int| 0 <= i < vs.len() implies f(#[trigger] vs[i]) == vs[i] by {
            assert(!Ir::is_result(vs[i], op));
        }
        assert(vs.map_values(f) =~= vs);
    }

    /// What precedes an operation has nothing to do with it, nor has what is in its regions but
    /// does not end them.
    proof fn others_stand(self, op: OpId)
        requires
            self.wf(),
            self.placed(op),
            self.used_only_behind(op),
            !self.ops[op].regions.contains(self.blocks[self.holder(op)].parent),
        ensures
            self.all_stand(self.blocks[self.holder(op)].ops.take(self.position(op)), op),
            forall|b: BlockId, k: int|
                #![trigger self.blocks[b].ops[k]]
                self.blocks.contains_key(b) && self.ops[op].regions.contains(self.blocks[b].parent)
                    && 0 <= k < self.blocks[b].ops.len() && !(b == self.regions[
                self.blocks[b].parent].blocks.last() && k == self.blocks[b].ops.len() - 1)
                    ==> self.stands(self.blocks[b].ops[k], op),
    {
        let pre = self.holder(op);
        self.position_in_range(op);
        let first = self.blocks[pre].ops.take(self.position(op));
        assert(self.regions.contains_key(self.blocks[pre].parent)
            && self.regions[self.blocks[pre].parent].parent != op) by {
            reveal(Ir::wf);
        }
        assert forall|i: int| 0 <= i < first.len() implies self.stands(#[trigger] first[i], op) by {
            assert(first[i] == self.blocks[pre].ops[i]);
            self.position_unique(pre, i);
        }
        assert forall|b: BlockId, k: int|
            #![trigger self.blocks[b].ops[k]]
            self.blocks.contains_key(b) && self.ops[op].regions.contains(self.blocks[b].parent)
                && 0 <= k < self.blocks[b].ops.len() && !(b == self.regions[
            self.blocks[b].parent].blocks.last() && k == self.blocks[b].ops.len()
                - 1) implies self.stands(self.blocks[b].ops[k], op) by {
            self.position_unique(b, k);
            self.position_unique(b, self.blocks[b].ops.len() - 1);
        }
    }

    /// The operation itself runs once what precedes it has run.
    proof fn ran_up_to(
        self,
        acts: spec_fn(OpId, Seq<int>, int) -> (Seq<int>, int),
        op: OpId,
        s: State,
        fuel: nat,
    )
        requires
            self.wf(),
            self.placed(op),
            self.ran_through(acts, op, s, fuel) is Some,
        ensures
            ({
                let first = self.blocks[self.holder(op)].ops.take(self.position(op));
                let x = self.ran_all(acts, first, s, fuel);
                &&& x is Some
                &&& self.ran(acts, op, x->0, fuel) == self.ran_through(acts, op, s, fuel)
            }),
    {
        self.position_in_range(op);
        let ops = self.blocks[self.holder(op)].ops.take(self.position(op) + 1);
        let first = self.blocks[self.holder(op)].ops.take(self.position(op));
        assert(ops.drop_last() =~= first);
        assert(ops.last() == op);
    }

    /// If a region of `op` runs to its end, then, in a state that agrees, its code still does so
    /// where it is now: control gets to the last block, in the state that is returned, and what
    /// runs there leads to a state that agrees.
    proof fn body_alike(
        self,
        later: Ir,
        op: OpId,
        acts: spec_fn(OpId, Seq<int>, int) -> (Seq<int>, int),
        i: int,
        now: RegionId,
        block: BlockId,
        s: State,
        t: State,
        fuel: nat,
    ) -> (u: State)
        requires
            self.wf(),
            self.placed(op),
            !self.ops[op].regions.contains(self.blocks[self.holder(op)].parent),
            self.used_only_behind(op),
            self.same_beside(later, op),
            self.has_exit_op(op, i),
            self.ops[self.exit_op(op, i)].kind is CfYield,
            self.moved_region(later, self.ops[op].regions[i], now),
            self.agree(op, s, t),
            self.blocks.contains_key(block),
            self.blocks[block].parent == self.ops[op].regions[i],
            ({
                let end = self.ran_region(acts, self.ops[op].regions[i], block, s, fuel);
                end is Some && end->0.block == self.exit(op, i)
            }),
        ensures
            ({
                let exit = self.exit(op, i);
                let first = self.blocks[exit].ops.drop_last();
                let end = self.ran_region(acts, self.ops[op].regions[i], block, s, fuel)->0;
                &&& later.reaches(acts, now, block, t, exit, u)
                &&& later.ran_all(acts, first, u, fuel) is Some
                &&& self.agree(op, end.state, later.ran_all(acts, first, u, fuel)->0)
            }),
        decreases fuel,
    {
        let region = self.ops[op].regions[i];
        let exit = self.exit(op, i);
        let ops = self.blocks[block].ops;
        let rest = ops.drop_last();
        let less = (fuel - 1) as nat;
        self.others_stand(op);
        assert(self.ops[op].regions.contains(region));
        assert forall|k: int| 0 <= k < rest.len() implies self.stands(#[trigger] rest[k], op) by {
            assert(rest[k] == self.blocks[block].ops[k]);
        }
        self.ran_all_alike(later, op, acts, rest, s, t, less);
        if self.ops[ops.last()].kind.closes() {
            later.ran_all_more(acts, rest, t, less, fuel);
            later.stays(acts, now, block, t);
            t
        } else {
            let x = self.ran_all(acts, rest, s, less)->0;
            let y = later.ran_all(acts, rest, t, less)->0;
            let o = self.blocks[block].ops[ops.len() - 1];
            assert(self.stands(o, op));
            assert(self.clear_to(o, op, 0));
            self.led_alike(later, acts, op, o, x, y);
            let to = self.led(acts, o, x)->0;
            let there = later.led(acts, o, y)->0;
            assert(later.blocks[block].ops == ops);
            later.step_reaches(acts, now, block, t, less, there.block, there.state);
            let u = self.body_alike(
                later,
                op,
                acts,
                i,
                now,
                to.block,
                to.state,
                there.state,
                less,
            );
            later.reaches_on(acts, now, block, t, there.block, there.state, exit, u);
            later.ran_all_more(acts, self.blocks[exit].ops.drop_last(), u, less, fuel);
            u
        }
    }

    /// Do the regions of an operation end at the end of their last blocks alone?
    pub open spec fn ends_last(self, op: OpId) -> bool {
        forall|i: int, b: BlockId|
            #![trigger self.has_body(op, i), self.blocks[b]]
            self.has_body(op, i) && self.blocks.contains_key(b) && self.blocks[b].parent
                == self.ops[op].regions[i] && b != self.exit(op, i) && self.blocks[b].ops.len() > 0
                ==> !self.ops[self.blocks[b].ops.last()].kind.closes()
    }

    /// The first of some operations come to an end if all do.
    proof fn ran_all_first(
        self,
        acts: spec_fn(OpId, Seq<int>, int) -> (Seq<int>, int),
        ops: Seq<OpId>,
        n: int,
        s: State,
        fuel: nat,
    )
        requires
            0 <= n <= ops.len(),
            self.ran_all(acts, ops, s, fuel) is Some,
        ensures
            self.ran_all(acts, ops.take(n), s, fuel) is Some,
    {
        assert(ops =~= ops.take(n) + ops.skip(n));
        self.ran_all_joined(acts, ops.take(n), ops.skip(n), s, fuel);
    }

    /// If control comes to an end from a block of what was a region of `op`, then, in a state that
    /// agrees, that region ran to its end.
    proof fn body_back(
        self,
        later: Ir,
        op: OpId,
        acts: spec_fn(OpId, Seq<int>, int) -> (Seq<int>, int),
        i: int,
        now: RegionId,
        block: BlockId,
        s: State,
        t: State,
        fuel: nat,
    )
        requires
            self.wf(),
            self.placed(op),
            !self.ops[op].regions.contains(self.blocks[self.holder(op)].parent),
            self.used_only_behind(op),
            self.same_beside(later, op),
            self.branches_stay(),
            self.ends_last(op),
            self.has_exit_op(op, i),
            self.ops[self.exit_op(op, i)].kind is CfYield,
            self.moved_region(later, self.ops[op].regions[i], now),
            ({
                let first = self.blocks[self.exit(op, i)].ops.drop_last();
                let ops = later.blocks[self.exit(op, i)].ops;
                first.len() < ops.len() && ops.take(first.len() as int) == first
            }),
            self.agree(op, s, t),
            self.blocks.contains_key(block),
            self.blocks[block].parent == self.ops[op].regions[i],
            later.ran_region(acts, now, block, t, fuel) is Some,
        ensures
            ({
                let end = self.ran_region(acts, self.ops[op].regions[i], block, s, fuel);
                end is Some && end->0.block == self.exit(op, i)
            }),
        decreases fuel,
    {
        let region = self.ops[op].regions[i];
        let exit = self.exit(op, i);
        let ops = self.blocks[block].ops;
        let rest = ops.drop_last();
        let less = (fuel - 1) as nat;
        self.others_stand(op);
        assert(self.ops[op].regions.contains(region));
        assert forall|k: int| 0 <= k < rest.len() implies self.stands(#[trigger] rest[k], op) by {
            assert(rest[k] == self.blocks[block].ops[k]);
        }
        self.ran_all_alike(later, op, acts, rest, s, t, less);
        if block == exit {
            let all = later.blocks[exit].ops.drop_last();
            assert(all.take(rest.len() as int) =~= rest);
            later.ran_all_first(acts, all, rest.len() as int, t, less);
        } else {
            assert(later.blocks[block].ops == ops);
            assert(self.has_body(op, i));
            let x = self.ran_all(acts, rest, s, less)->0;
            let y = later.ran_all(acts, rest, t, less)->0;
            let o = self.blocks[block].ops[ops.len() - 1];
            assert(self.stands(o, op));
            assert(self.clear_to(o, op, 0));
            assert(!self.ops[o].kind.closes());
            self.led_alike(later, acts, op, o, x, y);
            self.led_stays(acts, block, x);
            let to = self.led(acts, o, x)->0;
            let there = later.led(acts, o, y)->0;
            self.body_back(later, op, acts, i, now, to.block, to.state, there.state, less);
        }
    }

    /// The operation came to an end, from the start of its block, if what precedes it did and then
    /// the operation.
    proof fn ran_through_to(
        self,
        acts: spec_fn(OpId, Seq<int>, int) -> (Seq<int>, int),
        op: OpId,
        s: State,
        fuel: nat,
    )
        requires
            self.wf(),
            self.placed(op),
            ({
                let first = self.blocks[self.holder(op)].ops.take(self.position(op));
                let x = self.ran_all(acts, first, s, fuel);
                x is Some && self.ran(acts, op, x->0, fuel) is Some
            }),
        ensures
            self.ran_through(acts, op, s, fuel) is Some,
    {
        self.position_in_range(op);
        let ops = self.blocks[self.holder(op)].ops.take(self.position(op) + 1);
        let first = self.blocks[self.holder(op)].ops.take(self.position(op));
        assert(ops.drop_last() =~= first);
        assert(ops.last() == op);
    }
}

} // verus!
