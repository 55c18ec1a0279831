//! Lowering of [NDForOp].

use crate::cf::op_interfaces::{YieldingOp, YieldingRegions};
use crate::cf::ops::{ForOp, NDForOp, YieldOp};
use crate::cf::to_llvm::llvm_ops::LlvmBrOp;
use crate::ir::context::Context;
use crate::ir::model::{BlockView, Def, Ir, OpView, RegionView};
use crate::ir::rewriter::IRRewriter;
use crate::ir::types::{BlockId, Location, OpId, OpInsertionPoint, OpKind, RegionId, Type, Value};
use vstd::prelude::*;

verus! {

/// Why an [NDForOp] cannot be converted.
#[derive(Debug, Clone, Copy, PartialEq, Eq, Structural)]
pub enum NDForOpConversionErr {
    UnsupportedIVType,
}

impl NDForOpConversionErr {
    /// What is wrong, in words.
    pub open spec fn text(self) -> Seq<char> {
        "Unsupported induction variable type for NDForOp conversion"@
    }

    /// Says what is wrong.
    pub fn message(&self) -> (message: &'static str)
        ensures
            message@ == self.text(),
    {
        "Unsupported induction variable type for NDForOp conversion"
    }
}

/// What the lowering makes of a loop over several dimensions: a nest of loops over one
/// dimension each, counted here from the innermost, which is loop 0, outwards. Each body but
/// the innermost holds the next inner loop; the innermost body jumps to the body of the
/// given loop with all the induction variables, the outermost first.
impl NDForOp {
    /// The number of dimensions.
    pub open spec fn dims(self, ir: Ir) -> int {
        let l = self.lower_bounds(ir).len() as int;
        let u = self.upper_bounds(ir).len() as int;
        let s = self.steps(ir).len() as int;
        if l <= u && l <= s {
            l
        } else if u <= s {
            u
        } else {
            s
        }
    }

    /// Can the loop be lowered? It is in a block, has bounds and steps for at least one
    /// dimension, no results, and a body that ends with a `yield` without results.
    pub open spec fn lowerable(self, ir: Ir) -> bool {
        let op = ir.ops[self.op];
        &&& ir.placed(self.op)
        &&& op.has_segment(2)
        &&& op.results.len() == 0
        &&& op.regions.len() == 1
        &&& ir.yields_outward(self.op, 0)
        &&& self.dims(ir) >= 1
    }

    pub open spec fn loop_op(self, ir: Ir, i: int) -> OpId {
        ir.op_at(2 * i)
    }

    pub open spec fn loop_yield(self, ir: Ir, i: int) -> OpId {
        ir.op_at(2 * i + 1)
    }

    pub open spec fn loop_region(self, ir: Ir, i: int) -> RegionId {
        ir.region_at(i)
    }

    pub open spec fn loop_entry(self, ir: Ir, i: int) -> BlockId {
        ir.block_at(i)
    }

    /// The jump from the innermost loop to the given body.
    pub open spec fn jump(self, ir: Ir) -> OpId {
        ir.op_at(2 * self.dims(ir))
    }

    /// Loop `i` of the nest, in the given block.
    pub open spec fn loop_view(self, ir: Ir, i: int, parent: Option<BlockId>) -> OpView {
        let d = self.dims(ir) - 1 - i;
        OpView {
            kind: OpKind::CfFor,
            results: Seq::empty(),
            operands: seq![
                self.lower_bounds(ir)[d],
                self.upper_bounds(ir)[d],
                self.steps(ir)[d],
            ],
            successors: Seq::empty(),
            regions: seq![self.loop_region(ir, i)],
            segments: seq![3u32, 0u32],
            parent,
            loc: Location::Unknown,
        }
    }

    /// The body of loop `i` of the nest, with the given operations.
    pub open spec fn entry_view(self, ir: Ir, i: int, ops: Seq<OpId>) -> BlockView {
        BlockView {
            label: Some("entry"@),
            args: seq![Def { ty: Type::Index, name: Some("iv"@) }],
            ops,
            parent: self.loop_region(ir, i),
            loc: Location::Unknown,
        }
    }

    /// An operation, once `j` loops of the nest are made.
    pub open spec fn nested_op(self, ir: Ir, j: int, o: OpId) -> OpView {
        let i = (o - ir.next_op) / 2;
        if o < ir.next_op {
            ir.ops[o]
        } else if (o - ir.next_op) % 2 == 0 {
            self.loop_view(
                ir,
                i,
                if i + 1 == j {
                    None
                } else {
                    Some(self.loop_entry(ir, i + 1))
                },
            )
        } else {
            OpView {
                parent: if i == 0 {
                    Some(self.exit(ir))
                } else {
                    Some(self.loop_entry(ir, i))
                },
                ..YieldOp::view(Seq::empty())
            }
        }
    }

    /// A block, once `j` loops of the nest are made.
    pub open spec fn nested_block(self, ir: Ir, j: int, b: BlockId) -> BlockView {
        let i = b - ir.next_block;
        if b < ir.next_block {
            BlockView {
                ops: if b == self.exit(ir) {
                    if j == 0 {
                        ir.blocks[b].ops.drop_last()
                    } else {
                        ir.blocks[b].ops.drop_last().push(self.loop_yield(ir, 0))
                    }
                } else {
                    ir.blocks[b].ops
                },
                parent: if j > 0 && ir.blocks[b].parent == self.body(ir) {
                    self.loop_region(ir, 0)
                } else {
                    ir.blocks[b].parent
                },
                ..ir.blocks[b]
            }
        } else if i == 0 {
            self.entry_view(ir, 0, Seq::empty())
        } else {
            self.entry_view(ir, i, seq![self.loop_op(ir, i - 1), self.loop_yield(ir, i)])
        }
    }

    /// A region, once `j` loops of the nest are made.
    pub open spec fn nested_region(self, ir: Ir, j: int, r: RegionId) -> RegionView {
        let i = r - ir.next_region;
        if r < ir.next_region {
            if j > 0 && r == self.body(ir) {
                RegionView { blocks: Seq::empty(), ..ir.regions[r] }
            } else {
                ir.regions[r]
            }
        } else {
            RegionView {
                blocks: if i == 0 {
                    seq![self.loop_entry(ir, 0)] + ir.regions[self.body(ir)].blocks
                } else {
                    seq![self.loop_entry(ir, i)]
                },
                parent: self.loop_op(ir, i),
            }
        }
    }

    /// The representation once the `yield` is gone and `j` loops of the nest are made.
    spec fn nested(self, ir: Ir, j: int) -> Ir {
        Ir {
            ops: Map::new(
                |o: OpId|
                    (ir.ops.contains_key(o) && o != self.yield_op(ir)) || ir.next_op <= o
                        < ir.next_op + 2 * j,
                |o: OpId| self.nested_op(ir, j, o),
            ),
            blocks: Map::new(
                |b: BlockId|
                    ir.blocks.contains_key(b) || ir.next_block <= b < ir.next_block + j,
                |b: BlockId| self.nested_block(ir, j, b),
            ),
            regions: Map::new(
                |r: RegionId|
                    ir.regions.contains_key(r) || ir.next_region <= r < ir.next_region + j,
                |r: RegionId| self.nested_region(ir, j, r),
            ),
            next_op: (ir.next_op + 2 * j) as nat,
            next_block: (ir.next_block + j) as nat,
            next_region: (ir.next_region + j) as nat,
        }
    }

    /// The induction variables of the nest, the outermost first.
    pub open spec fn indices(self, ir: Ir) -> Seq<Value> {
        Seq::new(
            self.dims(ir) as nat,
            |i: int|
                Value::BlockArgument {
                    block: self.loop_entry(ir, self.dims(ir) - 1 - i),
                    idx: 0,
                },
        )
    }

    /// An operation after the lowering.
    pub open spec fn lowered_op(self, ir: Ir, o: OpId) -> OpView {
        let n = self.dims(ir);
        if o == self.jump(ir) {
            OpView {
                parent: Some(self.loop_entry(ir, 0)),
                ..OpView::llvm_br(self.entry(ir), self.indices(ir))
            }
        } else if o == self.loop_op(ir, n - 1) {
            OpView {
                loc: ir.ops[self.op].loc,
                ..self.loop_view(ir, n - 1, Some(ir.holder(self.op)))
            }
        } else {
            self.nested_op(ir, n, o)
        }
    }

    /// A block after the lowering.
    pub open spec fn lowered_block(self, ir: Ir, b: BlockId) -> BlockView {
        let n = self.dims(ir);
        if b == self.loop_entry(ir, 0) {
            self.entry_view(ir, 0, seq![self.jump(ir)])
        } else if b == ir.holder(self.op) {
            BlockView {
                ops: ir.blocks[b].ops.update(ir.position(self.op), self.loop_op(ir, n - 1)),
                ..ir.blocks[b]
            }
        } else {
            self.nested_block(ir, n, b)
        }
    }

    /// The representation after the lowering.
    pub open spec fn lowered(self, ir: Ir) -> Ir {
        let n = self.dims(ir);
        Ir {
            ops: Map::new(
                |o: OpId|
                    (ir.ops.contains_key(o) && o != self.op && o != self.yield_op(ir))
                        || ir.next_op <= o <= ir.next_op + 2 * n,
                |o: OpId| self.lowered_op(ir, o),
            ),
            blocks: Map::new(
                |b: BlockId|
                    ir.blocks.contains_key(b) || ir.next_block <= b < ir.next_block + n,
                |b: BlockId| self.lowered_block(ir, b),
            ),
            regions: Map::new(
                |r: RegionId|
                    (ir.regions.contains_key(r) && r != self.body(ir)) || ir.next_region <= r
                        < ir.next_region + n,
                |r: RegionId| self.nested_region(ir, n, r),
            ),
            next_op: (ir.next_op + 2 * n + 1) as nat,
            next_block: (ir.next_block + n) as nat,
            next_region: (ir.next_region + n) as nat,
        }
    }

    /// Identifiers that are there are smaller than those that are handed out.
    pub(crate) proof fn bounded(self, ir: Ir)
        requires
            ir.wf(),
            self.lowerable(ir),
        ensures
            forall|o: OpId| ir.ops.contains_key(o) ==> o < ir.next_op,
            forall|b: BlockId| ir.blocks.contains_key(b) ==> b < ir.next_block,
            forall|r: RegionId| ir.regions.contains_key(r) ==> r < ir.next_region,
            ir.regions.contains_key(self.body(ir)),
            ir.ops.contains_key(self.yield_op(ir)),
            ir.ops[self.yield_op(ir)].parent == Some(self.exit(ir)),
            self.yield_op(ir) != self.op,
            ir.blocks.contains_key(self.exit(ir)),
            ir.blocks.contains_key(self.entry(ir)),
            ir.blocks.contains_key(ir.holder(self.op)),
            self.exit(ir) != ir.holder(self.op),
    {
        reveal(Ir::wf);
        ir.entry_exit_in_range(self.op, 0);
        ir.position_in_range(self.op);
    }

    /// Erasing the `yield` is where the nest begins.
    proof fn nested_zero(self, ir: Ir)
        requires
            ir.wf(),
            self.lowerable(ir),
        ensures
            self.nested(ir, 0) == ir.erased_op(self.yield_op(ir)),
    {
        self.bounded(ir);
        ir.entry_exit_in_range(self.op, 0);
        let y = self.yield_op(ir);
        let goal = ir.erased_op(y);
        let start = self.nested(ir, 0);
        let ops = ir.blocks[self.exit(ir)].ops;
        assert(ops.remove(ops.len() - 1) =~= ops.drop_last());
        assert(start.ops =~= goal.ops);
        assert(start.blocks =~= goal.blocks);
        assert(start.regions =~= goal.regions);
    }

    /// The nest keeps all that can be referred to.
    proof fn nested_keeps(self, ir: Ir, j: int)
        requires
            ir.wf(),
            self.lowerable(ir),
            0 <= j,
        ensures
            ir.keeps(self.nested(ir, j)),
    {
        self.bounded(ir);
        let s = self.nested(ir, j);
        assert forall|v: Value| ir.has_value(v) implies #[trigger] s.has_value(v) by {}
    }

    /// Making one more loop: the loop is made, the inner loops, or the body, move into it, and
    /// it gets its `yield`.
    spec fn next_nested(self, ir: Ir, j: int) -> Ir {
        let s = self.nested(ir, j);
        let d = self.dims(ir) - 1 - j;
        let begun = ForOp::begun(
            s,
            self.lower_bounds(ir)[d],
            self.upper_bounds(ir)[d],
            self.steps(ir)[d],
            Seq::empty(),
        );
        let filled = if j == 0 {
            begun.inlined_region(self.body(ir), self.loop_entry(ir, 0))
        } else {
            begun.inserted_op(
                self.loop_op(ir, j - 1),
                OpInsertionPoint::AtBlockStart(self.loop_entry(ir, j)),
            )
        };
        YieldOp::yielded(filled, self.loop_region(ir, j), Seq::empty())
    }

    /// Making one more loop gives the next stage of the nest.
    proof fn nested_step(self, ir: Ir, j: int)
        requires
            ir.wf(),
            self.lowerable(ir),
            0 <= j < self.dims(ir),
            ir.next_op + 2 * j + 2 <= usize::MAX,
            ir.next_block + j + 1 <= usize::MAX,
            ir.next_region + j + 1 <= usize::MAX,
        ensures
            self.next_nested(ir, j) == self.nested(ir, j + 1),
    {
        self.bounded(ir);
        ir.entry_exit_in_range(self.op, 0);
        ir.members(self.body(ir));
        let s = self.nested(ir, j);
        let d = self.dims(ir) - 1 - j;
        let (lb, ub, st) = (
            self.lower_bounds(ir)[d],
            self.upper_bounds(ir)[d],
            self.steps(ir)[d],
        );
        let begun = ForOp::begun(s, lb, ub, st, Seq::empty());
        let entry = self.loop_entry(ir, j);
        let region = self.loop_region(ir, j);
        let next = self.next_nested(ir, j);
        let goal = self.nested(ir, j + 1);
        assert(begun.ops[self.loop_op(ir, j)] =~= self.loop_view(ir, j, None)) by {
            assert(seq![lb, ub, st] + Seq::<Value>::empty() =~= seq![lb, ub, st]);
            assert(Def::all_unnamed(s.types_of(Seq::<Value>::empty())) =~= Seq::<Def>::empty());
        }
        assert(begun.blocks[entry] =~= self.entry_view(ir, j, Seq::empty())) by {
            assert(ForOp::body_args(s, Seq::<Value>::empty()) =~= seq![
                Def { ty: Type::Index, name: Some("iv"@) },
            ]);
        }
        let inner = ir.regions[self.body(ir)].blocks;
        let filled = if j == 0 {
            begun.inlined_region(self.body(ir), entry)
        } else {
            begun.inserted_op(self.loop_op(ir, j - 1), OpInsertionPoint::AtBlockStart(entry))
        };
        assert(begun.regions[region].blocks == seq![entry]);
        if j == 0 {
            assert(seq![entry][0] == entry);
            assert(begun.block_position(entry) == 0);
            assert(begun.regions[self.body(ir)].blocks == inner);
            assert(filled.regions[region].blocks =~= seq![entry] + inner);
            assert(filled.regions[region].blocks.last() == self.exit(ir));
        } else {
            assert(begun.ops[self.loop_op(ir, j - 1)] == self.loop_view(ir, j - 1, None));
            assert(filled.blocks[entry].ops =~= seq![self.loop_op(ir, j - 1)]);
            assert(filled.regions[region].blocks.last() == entry);
            assert(seq![self.loop_op(ir, j - 1)].push(self.loop_yield(ir, j)) =~= seq![
                self.loop_op(ir, j - 1),
                self.loop_yield(ir, j),
            ]);
        }
        assert(filled.op_at(0) == self.loop_yield(ir, j));
        assert(next.ops.dom() =~= goal.ops.dom());
        assert forall|o: OpId| #[trigger] goal.ops.contains_key(o) implies next.ops[o]
            == goal.ops[o] by {
            assert(next.ops[o] =~= goal.ops[o]);
        }
        assert(next.ops =~= goal.ops);
        assert(next.blocks.dom() =~= goal.blocks.dom());
        assert forall|b: BlockId| #[trigger] goal.blocks.contains_key(b) implies next.blocks[b]
            == goal.blocks[b] by {
            assert(next.blocks[b] =~= goal.blocks[b]);
        }
        assert(next.blocks =~= goal.blocks);
        assert(next.regions =~= goal.regions);
    }

    /// The representation once the innermost loop jumps to the body.
    spec fn jumped(self, ir: Ir) -> Ir {
        self.nested(ir, self.dims(ir)).appended(
            OpView::llvm_br(self.entry(ir), self.indices(ir)),
            self.loop_entry(ir, 0),
        )
    }

    /// Putting the outermost loop where the given one is, and erasing that, then gives the
    /// lowered loop.
    proof fn jumped_to_lowered(self, ir: Ir)
        requires
            ir.wf(),
            self.lowerable(ir),
            ir.next_op + 2 * self.dims(ir) + 1 <= usize::MAX,
            ir.next_block + self.dims(ir) <= usize::MAX,
            ir.next_region + self.dims(ir) <= usize::MAX,
        ensures
            self.jumped(ir).ops.contains_key(self.op),
            self.jumped(ir).ops[self.op] == ir.ops[self.op],
            self.jumped(ir).ops.contains_key(self.loop_op(ir, self.dims(ir) - 1)),
            self.jumped(ir).ops[self.loop_op(ir, self.dims(ir) - 1)] == self.loop_view(
                ir,
                self.dims(ir) - 1,
                None,
            ),
            self.lowered(ir) == self.jumped(ir).inserted_op(
                self.loop_op(ir, self.dims(ir) - 1),
                OpInsertionPoint::BeforeOperation(self.op),
            ).replaced_op(self.op, self.loop_op(ir, self.dims(ir) - 1)),
    {
        self.bounded(ir);
        ir.entry_exit_in_range(self.op, 0);
        ir.position_in_range(self.op);
        let n = self.dims(ir);
        let outer = self.loop_op(ir, n - 1);
        let pre = ir.holder(self.op);
        let ops = ir.blocks[pre].ops;
        let k = ir.position(self.op);
        let t0 = self.nested(ir, n);
        let t1 = self.jumped(ir);
        let t2 = t1.inserted_op(outer, OpInsertionPoint::BeforeOperation(self.op));
        let t3 = t2.located_op(outer, ir.ops[self.op].loc);
        let t4 = t3.erased_op(self.op);
        let goal = self.lowered(ir);
        assert(t0.op_at(0) == self.jump(ir));
        assert((2 * (n - 1)) / 2 == n - 1);
        assert(t0.ops[outer] == self.loop_view(ir, n - 1, None));
        assert(t1.ops[outer] == self.loop_view(ir, n - 1, None));
        assert(t1.ops[self.op] == ir.ops[self.op]);
        assert(t1.blocks[pre].ops == ops);
        assert(t1.position(self.op) == k);
        let now = ops.insert(k, outer);
        assert(t2.blocks[pre].ops == now);
        assert(now[k + 1] == self.op);
        assert forall|q: int| 0 <= q < now.len() && now[q] == self.op implies q == k + 1 by {
            if q < k {
                ir.position_unique(pre, q);
            } else if q > k {
                assert(now[q] == ops[q - 1]);
                ir.position_unique(pre, q - 1);
            }
        }
        assert(t3.position(self.op) == k + 1);
        assert(now.remove(k + 1) =~= ops.update(k, outer));
        assert(t2.replaced_op(self.op, outer) == t4);
        assert(t4.ops.dom() =~= goal.ops.dom());
        assert forall|o: OpId| #[trigger] goal.ops.contains_key(o) implies t4.ops[o]
            == goal.ops[o] by {
            assert(t4.ops[o] =~= goal.ops[o]);
        }
        assert(t4.ops =~= goal.ops);
        assert(t4.blocks.dom() =~= goal.blocks.dom());
        assert forall|b: BlockId| #[trigger] goal.blocks.contains_key(b) implies t4.blocks[b]
            == goal.blocks[b] by {
            assert(t4.blocks[b] =~= goal.blocks[b]);
        }
        assert(t4.blocks =~= goal.blocks);
        assert(t4.regions =~= goal.regions);
    }

    /// Makes loop `j` of the nest, around `inner` if there is one, else around the body. Gives
    /// the loop and the entry block of its body.
    fn wrap(
        &self,
        ctx: &mut Context,
        lower_bound: Value,
        upper_bound: Value,
        step: Value,
        inner: Option<OpId>,
        body: RegionId,
        Ghost(ir): Ghost<Ir>,
        Ghost(j): Ghost<int>,
    ) -> (made: (OpId, BlockId))
        requires
            old(ctx).wf(),
            ir.wf(),
            self.lowerable(ir),
            0 <= j < self.dims(ir),
            old(ctx)@ == self.nested(ir, j),
            lower_bound == self.lower_bounds(ir)[self.dims(ir) - 1 - j],
            upper_bound == self.upper_bounds(ir)[self.dims(ir) - 1 - j],
            step == self.steps(ir)[self.dims(ir) - 1 - j],
            inner == (if j == 0 {
                None
            } else {
                Some(self.loop_op(ir, j - 1))
            }),
            body == self.body(ir),
            ir.has_value(lower_bound),
            ir.has_value(upper_bound),
            ir.has_value(step),
        ensures
            final(ctx).wf(),
            final(ctx).extends(old(ctx).journal()),
            final(ctx)@ == self.nested(ir, j + 1),
            made.0 == self.loop_op(ir, j),
            made.1 == self.loop_entry(ir, j),
            ir.next_op + 2 * j + 2 <= usize::MAX,
            ir.next_block + j + 1 <= usize::MAX,
            ir.next_region + j + 1 <= usize::MAX,
    {
        let ghost s = ctx@;
        proof {
            self.bounded(ir);
            self.nested_keeps(ir, j);
            assert(s.has_value(lower_bound) && s.has_value(upper_bound) && s.has_value(step));
        }
        let for_op = ForOp::begin(ctx, lower_bound, upper_bound, step, &Vec::new());
        let ghost begun = ctx@;
        let region: RegionId = ctx.regions(for_op.op)[0];
        let entry: BlockId = ctx.blocks(region)[0];
        match inner {
            None => {
                // Move the body of the given loop into the innermost loop.
                ctx.inline_region(body, entry);
            },
            Some(inner) => {
                // The body has just one operation, which is the loop made before.
                proof {
                    assert((2 * (j - 1)) / 2 == j - 1);
                    assert(begun.ops[inner] == self.loop_view(ir, j - 1, None));
                }
                ctx.insert_op(inner, OpInsertionPoint::AtBlockStart(entry));
            },
        }
        let mut inserter = IRRewriter::new(OpInsertionPoint::AtBlockStart(entry));
        YieldOp::append_to(ctx, &mut inserter, region, Vec::new());
        proof {
            self.nested_step(ir, j);
        }
        (for_op.op, entry)
    }

    /// Lowers the loop to a nest of loops over one dimension each. The insertion point is
    /// before the loop.
    pub fn rewrite(&self, ctx: &mut Context, rewriter: &mut IRRewriter) -> (result: Result<
        (),
        NDForOpConversionErr,
    >)
        requires
            old(ctx).wf(),
            self.lowerable(old(ctx)@),
            old(rewriter).insertion_point() == OpInsertionPoint::BeforeOperation(self.op),
        ensures
            result == Ok::<(), NDForOpConversionErr>(()),
            final(ctx).wf(),
            final(ctx).extends(old(ctx).journal()),
            final(ctx)@ == self.lowered(old(ctx)@),
            final(rewriter).insertion_point() == OpInsertionPoint::AfterOperation(
                self.loop_op(old(ctx)@, self.dims(old(ctx)@) - 1),
            ),
    {
        let ghost ir = ctx@;
        let ghost view = ir.ops[self.op];
        proof {
            self.bounded(ir);
            ir.entry_exit_in_range(self.op, 0);
            ir.position_in_range(self.op);
            ir.operands_there(self.op);
            view.earlier_segment(0, 2);
            view.earlier_segment(1, 2);
            view.segment_in_range(0);
            view.segment_in_range(1);
            view.segment_in_range(2);
        }
        let lower_bounds = self.get_lower_bounds(ctx);
        let upper_bounds = self.get_upper_bounds(ctx);
        let steps = self.get_steps(ctx);
        let region: RegionId = ctx.regions(self.op)[0];
        assert forall|q: int| 0 <= q < lower_bounds@.len() implies ir.has_value(
            #[trigger] lower_bounds@[q],
        ) by {
            assert(lower_bounds@[q] == view.operands[view.segment_start(0) + q]);
        }
        assert forall|q: int| 0 <= q < upper_bounds@.len() implies ir.has_value(
            #[trigger] upper_bounds@[q],
        ) by {
            assert(upper_bounds@[q] == view.operands[view.segment_start(1) + q]);
        }
        assert forall|q: int| 0 <= q < steps@.len() implies ir.has_value(
            #[trigger] steps@[q],
        ) by {
            assert(steps@[q] == view.operands[view.segment_start(2) + q]);
        }

        // Remove the `yield` in the body: each loop of the nest has its own.
        let yield_op: OpId = self.get_yield(ctx, 0).get_operation();
        proof {
            ir.resultless_unused(self.yield_op(ir));
            self.nested_zero(ir);
        }
        ctx.erase_op(yield_op);

        // Make the loops from the innermost, which gets the body, to the outermost.
        let mut dims: usize = lower_bounds.len();
        if upper_bounds.len() < dims {
            dims = upper_bounds.len();
        }
        if steps.len() < dims {
            dims = steps.len();
        }
        let mut last: Option<OpId> = None;
        let mut entries: Vec<BlockId> = Vec::new();
        for j in 0..dims
            invariant
                ctx.wf(),
                ctx.extends(old(ctx).journal()),
                ir == old(ctx)@,
                ir.wf(),
                self.lowerable(ir),
                dims == self.dims(ir),
                lower_bounds@ == self.lower_bounds(ir),
                upper_bounds@ == self.upper_bounds(ir),
                steps@ == self.steps(ir),
                ir.has_values(lower_bounds@),
                ir.has_values(upper_bounds@),
                ir.has_values(steps@),
                region == self.body(ir),
                ctx@ == self.nested(ir, j as int),
                last == (if j == 0 {
                    None
                } else {
                    Some(self.loop_op(ir, j - 1))
                }),
                entries@ == Seq::new(j as nat, |i: int| self.loop_entry(ir, i)),
                j > 0 ==> ir.next_op + 2 * j <= usize::MAX,
                j > 0 ==> ir.next_block + j <= usize::MAX,
                j > 0 ==> ir.next_region + j <= usize::MAX,
                *old(rewriter) == *rewriter,
        {
            let d: usize = dims - 1 - j;
            let (op, entry) = self.wrap(
                ctx,
                lower_bounds[d],
                upper_bounds[d],
                steps[d],
                last,
                region,
                Ghost(ir),
                Ghost(j as int),
            );
            last = Some(op);
            entries.push(entry);
            assert(entries@ =~= Seq::new((j + 1) as nat, |i: int| self.loop_entry(ir, i)));
        }
        let outermost: OpId = last.unwrap();
        let ghost s = ctx@;
        proof {
            self.nested_keeps(ir, dims as int);
            assert(s.blocks.contains_key(self.entry(ir)));
        }

        // Jump from the innermost loop to the body of the given loop, with all the
        // induction variables.
        let innermost_entry: BlockId = entries[0];
        let inner_region: RegionId = ctx.parent_region(innermost_entry);
        let branch_to: BlockId = ctx.blocks(inner_region)[1];
        assert(branch_to == self.entry(ir));
        let mut indices: Vec<Value> = Vec::new();
        for i in 0..dims
            invariant
                dims == self.dims(ir),
                entries@ == Seq::new(dims as nat, |i: int| self.loop_entry(ir, i)),
                indices@ == self.indices(ir).take(i as int),
        {
            indices.push(Value::BlockArgument { block: entries[dims - 1 - i], idx: 0 });
            assert(indices@ =~= self.indices(ir).take(i + 1));
        }
        assert(indices@ =~= self.indices(ir));
        assert forall|i: int| 0 <= i < indices@.len() implies s.has_value(
            #[trigger] indices@[i],
        ) by {}
        let branch: OpId = LlvmBrOp::new(ctx, branch_to, indices);
        proof {
            assert(s.next_op < usize::MAX) by {
                reveal(Ir::wf);
            }
            s.insert_at_end(
                OpView::llvm_br(self.entry(ir), self.indices(ir)),
                innermost_entry,
            );
        }
        ctx.insert_op(branch, OpInsertionPoint::AtBlockEnd(innermost_entry));

        // Put the outermost loop in the place of the given one.
        proof {
            self.jumped_to_lowered(ir);
        }
        rewriter.append_op(ctx, outermost);
        proof {
            let t2 = ctx@;
            assert(t2.ops[self.op] == ir.ops[self.op]);
            assert(t2.regions[self.body(ir)].blocks.len() == 0);
        }
        rewriter.replace_operation(ctx, self.op, outermost);
        Ok(())
    }
}

} // verus!
