//! Lowering of [ForOp].

use crate::cf::op_interfaces::{YieldingOp, YieldingRegions};
use crate::cf::ops::ForOp;
use crate::cf::to_llvm::llvm_ops::{AddOp, ICmpOp, LlvmBrOp, LlvmCondBrOp};
use crate::ir::context::Context;
use crate::ir::model::{BlockView, Def, Ir, OpView, RegionView};
use crate::ir::rewriter::IRRewriter;
use crate::ir::types::{
    BlockId, BlockInsertionPoint, ICmpPredicate, Location, OpId, OpInsertionPoint, RegionId, Type,
    Value,
};
use vstd::prelude::*;

verus! {

/// Why a [ForOp] cannot be converted.
#[derive(Debug, Clone, Copy, PartialEq, Eq, Structural)]
pub enum ForOpConversionErr {
    UnsupportedIVType,
}

impl ForOpConversionErr {
    /// What is wrong, in words.
    pub open spec fn text(self) -> Seq<char> {
        "Unsupported induction variable type for ForOp conversion"@
    }

    /// Says what is wrong.
    pub fn message(&self) -> (message: &'static str)
        ensures
            message@ == self.text(),
    {
        "Unsupported induction variable type for ForOp conversion"
    }
}

/// What the lowering makes of a loop:
///
/// ```text
///     <code before ForOp>
///     llvm.br ^header(%lower_bound, %iter_args_init, ...)
///
///  ^header(%iv, %iter_args, ...):
///     %cmp = llvm.icmp %iv ULT %upper_bound
///     llvm.cond_br if %cmp ^for_body_entry(%iv, %iter_args) else ^exit
///
///  ^for_body_entry(%iv, %iter_args, ...):
///     ...
///
///  ^for_body_exit(...):
///     ...
///     %iv_next = llvm.add %iv, %step
///     llvm.br ^header(%iv_next, %yield_operands, ...)
///
///  ^exit:
///     <code after ForOp>
/// ```
impl ForOp {
    /// Can the loop be lowered? It is in a block, has its bounds, initial values and body, as
    /// many results as initial values, and its body ends with a `yield` without results.
    pub open spec fn lowerable(self, ir: Ir) -> bool {
        let op = ir.ops[self.op];
        &&& ir.placed(self.op)
        &&& op.has_segment(1)
        &&& op.segments[0] >= 3
        &&& op.segments[1] < u32::MAX
        &&& op.results.len() == op.segments[1]
        &&& op.regions.len() == 1
        &&& ir.yields_outward(self.op, 0)
        &&& ir.blocks[self.entry(ir)].args.len() > 0
    }

    /// The block that holds the loop.
    pub open spec fn pre_header(self, ir: Ir) -> BlockId {
        ir.holder(self.op)
    }

    /// The block that takes what follows the loop.
    pub open spec fn after(self, ir: Ir) -> BlockId {
        ir.block_at(0)
    }

    /// The block that decides whether the body runs once more.
    pub open spec fn header(self, ir: Ir) -> BlockId {
        ir.block_at(1)
    }

    pub open spec fn compare(self, ir: Ir) -> OpId {
        ir.op_at(0)
    }

    pub open spec fn decide(self, ir: Ir) -> OpId {
        ir.op_at(1)
    }

    pub open spec fn enter(self, ir: Ir) -> OpId {
        ir.op_at(2)
    }

    pub open spec fn advance(self, ir: Ir) -> OpId {
        ir.op_at(3)
    }

    pub open spec fn repeat(self, ir: Ir) -> OpId {
        ir.op_at(4)
    }

    /// The value that stands for `v` after the lowering: a result of the loop becomes an
    /// argument of the header.
    pub open spec fn renamed(self, ir: Ir, v: Value) -> Value {
        Ir::substituted(v, self.op, self.header(ir), 1)
    }

    pub open spec fn all_renamed(self, ir: Ir, values: Seq<Value>) -> Seq<Value> {
        values.map_values(|v: Value| self.renamed(ir, v))
    }

    /// The operations that follow the loop in its block.
    pub open spec fn tail(self, ir: Ir) -> Seq<OpId> {
        ir.followers(self.op)
    }

    /// The arguments of the header: the induction variable, then the loop-carried variables,
    /// named after the results of the loop.
    pub open spec fn header_args(self, ir: Ir) -> Seq<Def> {
        let inits = self.iter_args_init(ir);
        seq![Def::unnamed(Type::signless(64))] + Seq::new(
            inits.len(),
            |i: int|
                Def {
                    ty: if inits[i] == self.induction_variable(ir) {
                        Type::signless(64)
                    } else {
                        ir.def(inits[i]).ty
                    },
                    name: ir.ops[self.op].results[i].name,
                },
        )
    }

    /// An operation after the lowering.
    pub open spec fn lowered_op(self, ir: Ir, o: OpId) -> OpView {
        let header = self.header(ir);
        let iv = Value::BlockArgument { block: header, idx: 0 };
        let args = Seq::new(
            self.iter_args_init(ir).len() + 1,
            |i: int| Value::BlockArgument { block: header, idx: i as usize },
        );
        if o == self.compare(ir) {
            OpView {
                parent: Some(header),
                ..OpView::llvm_compare(
                    ICmpPredicate::ULT,
                    iv,
                    self.renamed(ir, self.upper_bound(ir)),
                )
            }
        } else if o == self.decide(ir) {
            OpView {
                parent: Some(header),
                ..OpView::llvm_cond_br(
                    Value::OpResult { op: self.compare(ir), idx: 0 },
                    self.entry(ir),
                    args,
                    self.after(ir),
                    Seq::empty(),
                )
            }
        } else if o == self.enter(ir) {
            OpView {
                parent: Some(self.pre_header(ir)),
                ..OpView::llvm_br(
                    header,
                    self.all_renamed(
                        ir,
                        seq![self.lower_bound(ir)] + self.iter_args_init(ir),
                    ),
                )
            }
        } else if o == self.advance(ir) {
            OpView {
                parent: Some(self.exit(ir)),
                ..OpView::llvm_add(
                    self.induction_variable(ir),
                    self.renamed(ir, self.step(ir)),
                    Type::signless(64),
                )
            }
        } else if o == self.repeat(ir) {
            OpView {
                parent: Some(self.exit(ir)),
                ..OpView::llvm_br(
                    header,
                    seq![Value::OpResult { op: self.advance(ir), idx: 0 }] + self.all_renamed(
                        ir,
                        ir.ops[self.yield_op(ir)].operands,
                    ),
                )
            }
        } else {
            OpView {
                operands: self.all_renamed(ir, ir.ops[o].operands),
                parent: if self.tail(ir).contains(o) {
                    Some(self.after(ir))
                } else {
                    ir.ops[o].parent
                },
                ..ir.ops[o]
            }
        }
    }

    /// A block after the lowering.
    pub open spec fn lowered_block(self, ir: Ir, b: BlockId) -> BlockView {
        let pre = ir.blocks[self.pre_header(ir)];
        if b == self.header(ir) {
            BlockView {
                label: Some("for_op_header"@),
                args: self.header_args(ir),
                ops: seq![self.compare(ir), self.decide(ir)],
                parent: pre.parent,
                loc: ir.ops[self.op].loc,
            }
        } else if b == self.after(ir) {
            BlockView {
                label: Ir::split_label(pre.label),
                args: Seq::empty(),
                ops: self.tail(ir),
                parent: pre.parent,
                loc: Location::Unknown,
            }
        } else if b == self.pre_header(ir) {
            BlockView {
                ops: pre.ops.take(ir.position(self.op)).push(self.enter(ir)),
                ..pre
            }
        } else {
            BlockView {
                args: if b == self.entry(ir) {
                    ir.blocks[b].args.update(
                        0,
                        Def { ty: Type::signless(64), ..ir.blocks[b].args[0] },
                    )
                } else {
                    ir.blocks[b].args
                },
                ops: if b == self.exit(ir) {
                    ir.blocks[b].ops.drop_last() + seq![self.advance(ir), self.repeat(ir)]
                } else {
                    ir.blocks[b].ops
                },
                parent: if ir.blocks[b].parent == self.body(ir) {
                    pre.parent
                } else {
                    ir.blocks[b].parent
                },
                ..ir.blocks[b]
            }
        }
    }

    /// The blocks of the region that holds the loop, after the lowering.
    pub open spec fn lowered_order(self, ir: Ir) -> Seq<BlockId> {
        let pre = self.pre_header(ir);
        let blocks = ir.regions[ir.blocks[pre].parent].blocks;
        let i = ir.block_position(pre) + 1;
        blocks.take(i) + seq![self.header(ir)] + ir.regions[self.body(ir)].blocks + seq![
            self.after(ir),
        ] + blocks.skip(i)
    }

    /// The representation after the lowering.
    pub open spec fn lowered(self, ir: Ir) -> Ir {
        let region = ir.blocks[self.pre_header(ir)].parent;
        Ir {
            ops: Map::new(
                |o: OpId|
                    (ir.ops.contains_key(o) && o != self.op && o != self.yield_op(ir))
                        || ir.next_op <= o < ir.next_op + 5,
                |o: OpId| self.lowered_op(ir, o),
            ),
            blocks: Map::new(
                |b: BlockId|
                    ir.blocks.contains_key(b) || b == self.after(ir) || b == self.header(ir),
                |b: BlockId| self.lowered_block(ir, b),
            ),
            regions: ir.regions.remove(self.body(ir)).insert(
                region,
                RegionView { blocks: self.lowered_order(ir), ..ir.regions[region] },
            ),
            next_op: ir.next_op + 5,
            next_block: ir.next_block + 2,
            next_region: ir.next_region,
        }
    }

    /// The types of the arguments of the header.
    spec fn header_types(self, ir: Ir) -> Seq<Type> {
        seq![Type::signless(64)] + ir.retyped_argument(
            self.entry(ir),
            0,
            Type::signless(64),
        ).types_of(self.iter_args_init(ir))
    }

    /// The representation once the block that holds the loop is split, and the header, still
    /// empty, is in place.
    spec fn opened(self, ir: Ir) -> Ir {
        let pre = self.pre_header(ir);
        let region = ir.blocks[pre].parent;
        let k = ir.position(self.op);
        let i = ir.block_position(pre) + 1;
        let moved = ir.blocks[pre].ops.skip(k);
        Ir {
            ops: Map::new(
                |o: OpId| ir.ops.contains_key(o),
                |o: OpId|
                    if moved.contains(o) {
                        OpView { parent: Some(self.after(ir)), ..ir.ops[o] }
                    } else {
                        ir.ops[o]
                    },
            ),
            blocks: Map::new(
                |b: BlockId|
                    ir.blocks.contains_key(b) || b == self.after(ir) || b == self.header(ir),
                |b: BlockId|
                    if b == self.header(ir) {
                        BlockView {
                            label: Some("for_op_header"@),
                            args: Def::all_unnamed(self.header_types(ir)),
                            ops: Seq::empty(),
                            parent: region,
                            loc: ir.ops[self.op].loc,
                        }
                    } else if b == self.after(ir) {
                        BlockView {
                            label: Ir::split_label(ir.blocks[pre].label),
                            args: Seq::empty(),
                            ops: moved,
                            parent: region,
                            loc: Location::Unknown,
                        }
                    } else if b == pre {
                        BlockView { ops: ir.blocks[pre].ops.take(k), ..ir.blocks[pre] }
                    } else if b == self.entry(ir) {
                        BlockView {
                            args: ir.blocks[b].args.update(
                                0,
                                Def { ty: Type::signless(64), ..ir.blocks[b].args[0] },
                            ),
                            ..ir.blocks[b]
                        }
                    } else {
                        ir.blocks[b]
                    },
            ),
            regions: ir.regions.insert(
                region,
                RegionView {
                    blocks: ir.regions[region].blocks.take(i) + seq![
                        self.header(ir),
                        self.after(ir),
                    ] + ir.regions[region].blocks.skip(i),
                    ..ir.regions[region]
                },
            ),
            next_block: ir.next_block + 2,
            ..ir
        }
    }

    /// Splitting the block, converting the induction variable and making the header, one after
    /// the other, gives the opened loop.
    proof fn opened_steps(self, ir: Ir)
        requires
            ir.wf(),
            self.lowerable(ir),
            ir.next_block + 2 <= usize::MAX,
        ensures
            self.opened(ir) == ir.split_before(self.op).retyped_argument(
                self.entry(ir),
                0,
                Type::signless(64),
            ).created_block(
                BlockInsertionPoint::AfterBlock(self.pre_header(ir)),
                Some("for_op_header"@),
                self.header_types(ir),
            ).located_block(self.header(ir), ir.ops[self.op].loc),
    {
        ir.entry_exit_in_range(self.op, 0);
        ir.position_in_range(self.op);
        let pre = self.pre_header(ir);
        ir.block_position_in_range(pre);
        ir.split_keeps(self.op);
        let region = ir.blocks[pre].parent;
        let i = ir.block_position(pre) + 1;
        let s1 = ir.split_before(self.op);
        let s2 = s1.retyped_argument(self.entry(ir), 0, Type::signless(64));
        let s3 = s2.created_block(
            BlockInsertionPoint::AfterBlock(pre),
            Some("for_op_header"@),
            self.header_types(ir),
        );
        let s4 = s3.located_block(self.header(ir), ir.ops[self.op].loc);
        let goal = self.opened(ir);
        let blocks = ir.regions[region].blocks;
        assert(!ir.blocks.contains_key(self.header(ir))) by {
            reveal(Ir::wf);
        }
        let created = ir.created_block(
            BlockInsertionPoint::AfterBlock(pre),
            Ir::split_label(ir.blocks[pre].label),
            Seq::empty(),
        );
        ir.created_block_wf(
            BlockInsertionPoint::AfterBlock(pre),
            Ir::split_label(ir.blocks[pre].label),
            Seq::empty(),
        );
        assert(created.regions[region].blocks == blocks.insert(i, self.after(ir)));
        assert(created.regions[region].blocks[i - 1] == pre);
        created.block_position_unique(region, i - 1);
        assert(s2.block_position(pre) == i - 1);
        assert(blocks.insert(i, self.after(ir)).insert(i, self.header(ir)) =~= blocks.take(i)
            + seq![self.header(ir), self.after(ir)] + blocks.skip(i));
        assert(s4.ops =~= goal.ops);
        assert forall|b: BlockId| #[trigger] goal.blocks.contains_key(b) implies s4.blocks[b]
            == goal.blocks[b] by {
            if b == self.header(ir) {
            } else if b == self.after(ir) {
                assert(s4.blocks[b] =~= goal.blocks[b]);
            } else if b == pre {
            } else if b == self.entry(ir) {
            }
        }
        assert(s4.blocks.dom() =~= goal.blocks.dom());
        assert(s4.blocks =~= goal.blocks);
        assert(s4.regions =~= goal.regions);
    }

    /// The arguments of the header, as values.
    spec fn header_values(self, ir: Ir) -> Seq<Value> {
        Seq::new(
            self.iter_args_init(ir).len() + 1,
            |i: int| Value::BlockArgument { block: self.header(ir), idx: i as usize },
        )
    }

    /// The representation once the header decides and the block before it enters.
    spec fn headed(self, ir: Ir) -> Ir {
        self.opened(ir).appended(
            OpView::llvm_compare(
                ICmpPredicate::ULT,
                Value::BlockArgument { block: self.header(ir), idx: 0 },
                self.upper_bound(ir),
            ),
            self.header(ir),
        ).appended(
            OpView::llvm_cond_br(
                Value::OpResult { op: self.compare(ir), idx: 0 },
                self.entry(ir),
                self.header_values(ir),
                self.after(ir),
                Seq::empty(),
            ),
            self.header(ir),
        ).appended(
            OpView::llvm_br(
                self.header(ir),
                seq![self.lower_bound(ir)] + self.iter_args_init(ir),
            ),
            self.pre_header(ir),
        )
    }

    /// The representation once the body goes back to the header.
    spec fn looped(self, ir: Ir) -> Ir {
        self.headed(ir).appended(
            OpView::llvm_add(self.induction_variable(ir), self.step(ir), Type::signless(64)),
            self.exit(ir),
        ).appended(
            OpView::llvm_br(
                self.header(ir),
                seq![Value::OpResult { op: self.advance(ir), idx: 0 }]
                    + ir.ops[self.yield_op(ir)].operands,
            ),
            self.exit(ir),
        ).erased_op(self.yield_op(ir))
    }

    /// The representation once the body is inlined and the loop is gone.
    spec fn dissolved(self, ir: Ir) -> Ir {
        self.looped(ir).inlined_region(self.body(ir), self.header(ir)).replaced_results(
            self.op,
            self.header(ir),
            1,
        ).erased_op(self.op)
    }

    /// What is in the blocks once the body goes back to the header.
    proof fn looped_blocks(self, ir: Ir)
        requires
            ir.wf(),
            self.lowerable(ir),
            ir.next_block + 2 <= usize::MAX,
            ir.next_op + 5 <= usize::MAX,
        ensures
            ({
                let s = self.looped(ir);
                let opened = self.opened(ir);
                &&& s.regions == opened.regions
                &&& s.blocks.dom() == opened.blocks.dom()
                &&& forall|b: BlockId| #[trigger]
                    s.blocks.contains_key(b) ==> s.blocks[b] == (BlockView {
                        ops: if b == self.header(ir) {
                            seq![self.compare(ir), self.decide(ir)]
                        } else if b == self.pre_header(ir) {
                            opened.blocks[b].ops.push(self.enter(ir))
                        } else if b == self.exit(ir) {
                            ir.blocks[b].ops.drop_last() + seq![
                                self.advance(ir),
                                self.repeat(ir),
                            ]
                        } else {
                            opened.blocks[b].ops
                        },
                        ..opened.blocks[b]
                    })
            }),
    {
        ir.entry_exit_in_range(self.op, 0);
        ir.position_in_range(self.op);
        let y = self.yield_op(ir);
        let exit = self.exit(ir);
        let ops = ir.blocks[exit].ops;
        let opened = self.opened(ir);
        let s6 = self.headed(ir).appended(
            OpView::llvm_add(self.induction_variable(ir), self.step(ir), Type::signless(64)),
            self.exit(ir),
        ).appended(
            OpView::llvm_br(
                self.header(ir),
                seq![Value::OpResult { op: self.advance(ir), idx: 0 }]
                    + ir.ops[self.yield_op(ir)].operands,
            ),
            self.exit(ir),
        );
        let s = self.looped(ir);
        assert(ir.ops.contains_key(y));
        assert(forall|o: OpId| ir.ops.contains_key(o) ==> o < ir.next_op) by {
            reveal(Ir::wf);
        }
        assert(forall|b: BlockId| ir.blocks.contains_key(b) ==> b < ir.next_block) by {
            reveal(Ir::wf);
        }
        let now = ops.push(self.advance(ir)).push(self.repeat(ir));
        assert(s6.blocks[exit].ops == now);
        ir.moved_from_holder(self.op);
        assert(s6.ops[y] == ir.ops[y]);
        assert(s6.position(y) == ops.len() - 1) by {
            assert(now[ops.len() - 1] == y);
            assert forall|k: int| 0 <= k < now.len() && now[k] == y implies k == ops.len() - 1 by {
                if k < ops.len() {
                    ir.position_unique(exit, k);
                } else {
                    assert(now[k] >= ir.next_op);
                }
            }
        }
        assert(now.remove(ops.len() - 1) =~= ops.drop_last() + seq![
            self.advance(ir),
            self.repeat(ir),
        ]);
        assert(Seq::<OpId>::empty().push(self.compare(ir)).push(self.decide(ir)) =~= seq![
            self.compare(ir),
            self.decide(ir),
        ]);
        assert(s.regions =~= opened.regions);
        assert(s.blocks.dom() =~= opened.blocks.dom());
    }

    /// Dissolving the loop step by step gives the lowered loop.
    proof fn dissolved_is_lowered(self, ir: Ir)
        requires
            ir.wf(),
            self.lowerable(ir),
            ir.next_block + 2 <= usize::MAX,
            ir.next_op + 5 <= usize::MAX,
        ensures
            self.dissolved(ir) == self.lowered(ir),
    {
        ir.entry_exit_in_range(self.op, 0);
        ir.position_in_range(self.op);
        ir.moved_from_holder(self.op);
        self.looped_blocks(ir);
        assert(forall|o: OpId| ir.ops.contains_key(o) ==> o < ir.next_op) by {
            reveal(Ir::wf);
        }
        assert(forall|b: BlockId| ir.blocks.contains_key(b) ==> b < ir.next_block) by {
            reveal(Ir::wf);
        }
        let s7 = self.looped(ir);
        let s8 = s7.inlined_region(self.body(ir), self.header(ir));
        let s9 = s8.replaced_results(self.op, self.header(ir), 1);
        let s10 = s9.erased_op(self.op);
        let goal = self.lowered(ir);
        assert(s10.ops.dom() =~= goal.ops.dom());
        assert forall|o: OpId| #[trigger] goal.ops.contains_key(o) implies s10.ops[o]
            == goal.ops[o] by {
            assert(s10.ops[o] =~= goal.ops[o]);
        }
        assert(s10.ops =~= goal.ops);
        let pre = self.pre_header(ir);
        let region = ir.blocks[pre].parent;
        let blocks = ir.regions[region].blocks;
        let i = ir.block_position(pre) + 1;
        let inner = ir.regions[self.body(ir)].blocks;
        ir.block_position_in_range(pre);
        // The blocks of the body are those that move.
        ir.members(self.body(ir));
        // The loop is the first operation of the block behind it.
        let moved = ir.blocks[pre].ops.skip(ir.position(self.op));
        assert(s9.blocks[self.after(ir)].ops == moved);
        assert(s9.ops[self.op].parent == Some(self.after(ir))) by {
            assert(moved[0] == self.op);
        }
        assert(s9.position(self.op) == 0) by {
            assert(moved[0] == self.op);
            assert forall|k: int| 0 <= k < moved.len() && moved[k] == self.op implies k == 0 by {
                ir.position_unique(pre, ir.position(self.op) + k);
            }
        }
        assert(moved.remove(0) =~= self.tail(ir));
        // The header stands right behind the block that held the loop.
        let opened_blocks = blocks.take(i) + seq![self.header(ir), self.after(ir)] + blocks.skip(i);
        assert(s7.regions[region].blocks == opened_blocks);
        assert(s7.block_position(self.header(ir)) == i) by {
            assert(opened_blocks[i] == self.header(ir));
            assert forall|k: int|
                0 <= k < opened_blocks.len() && opened_blocks[k] == self.header(ir) implies k
                == i by {
                if k < i {
                    ir.block_position_unique(region, k);
                } else if k > i + 1 {
                    assert(opened_blocks[k] == blocks[k - 2]);
                    ir.block_position_unique(region, k - 2);
                }
            }
        }
        assert(opened_blocks.take(i + 1) + inner + opened_blocks.skip(i + 1)
            =~= self.lowered_order(ir));
        assert(s10.blocks.dom() =~= goal.blocks.dom());
        assert forall|b: BlockId| #[trigger] goal.blocks.contains_key(b) implies s10.blocks[b]
            == goal.blocks[b] by {
            if b == self.header(ir) {
                let inits = self.iter_args_init(ir);
                ir.ops[self.op].segment_in_range(1);
                let typed = ir.retyped_argument(self.entry(ir), 0, Type::signless(64));
                ir.operands_there(self.op);
                assert forall|j: int| 0 <= j < inits.len() implies typed.def(inits[j]).ty == (
                if inits[j] == self.induction_variable(ir) {
                    Type::signless(64)
                } else {
                    ir.def(#[trigger] inits[j]).ty
                }) by {
                    let start = ir.ops[self.op].segment_start(1);
                    assert(inits[j] == ir.ops[self.op].operands[start + j]);
                    assert(ir.has_value(inits[j]));
                }
                assert(s10.blocks[b].args.len() == goal.blocks[b].args.len());
                assert(s10.blocks[b].args =~= goal.blocks[b].args);
            }
            assert(s10.blocks[b] =~= goal.blocks[b]);
        }
        assert(s10.blocks =~= goal.blocks);
        assert(s10.regions =~= goal.regions);
    }

    /// Splits the block that holds the loop, and makes the header. Gives the header and the
    /// block behind the loop.
    fn open(&self, ctx: &mut Context, rewriter: &mut IRRewriter) -> (made: (BlockId, BlockId))
        requires
            old(ctx).wf(),
            self.lowerable(old(ctx)@),
        ensures
            final(ctx).wf(),
            final(ctx).extends(old(ctx).journal()),
            final(ctx)@ == self.opened(old(ctx)@),
            made.0 == self.header(old(ctx)@),
            made.1 == self.after(old(ctx)@),
            old(ctx)@.next_block + 2 <= usize::MAX,
            final(rewriter).insertion_point() == OpInsertionPoint::AtBlockEnd(made.0),
    {
        let ghost ir = ctx@;
        proof {
            ir.entry_exit_in_range(self.op, 0);
            ir.operands_there(self.op);
            ir.ops[self.op].segment_in_range(1);
        }
        let iter_vars_init = self.get_iter_args_init(ctx);
        let for_body_entry: BlockId = self.get_entry(ctx, 0);
        let loc: Location = ctx.op_loc(self.op);
        let pre_header: BlockId = ctx.parent_block(self.op).unwrap();

        let exit_block: BlockId = rewriter.split_block(ctx, self.op);
        let ghost s1 = ctx@;
        proof {
            assert(ir.next_block + 1 <= usize::MAX) by {
                reveal(Ir::wf);
            }
            ir.split_keeps(self.op);
        }

        ctx.retype_argument(for_body_entry, 0, Type::i64());
        let ghost s2 = ctx@;

        // The loop-carried variables are passed through the header as they are; their types
        // are converted where they are used.
        assert forall|j: int| 0 <= j < iter_vars_init@.len() implies s2.has_value(
            #[trigger] iter_vars_init@[j],
        ) by {
            let start = ir.ops[self.op].segment_start(1);
            assert(iter_vars_init@[j] == ir.ops[self.op].operands[start + j]);
            assert(ir.has_value(iter_vars_init@[j]));
            assert(s1.has_value(iter_vars_init@[j]));
        }
        let mut header_types: Vec<Type> = vec![Type::i64()];
        let mut iter_var_types = ctx.types_of(&iter_vars_init);
        header_types.append(&mut iter_var_types);
        assert(header_types@ =~= self.header_types(ir));

        let label = String::from_str("for_op_header");
        let ghost text = Some(label@);
        let header: BlockId = rewriter.create_block(
            ctx,
            BlockInsertionPoint::AfterBlock(pre_header),
            Some(label),
            header_types,
        );
        proof {
            assert(ir.next_block + 2 <= usize::MAX) by {
                reveal(Ir::wf);
            }
        }
        ctx.locate_block(header, loc);
        proof {
            self.opened_steps(ir);
        }
        (header, exit_block)
    }

    /// Opening the loop keeps all that can be referred to.
    proof fn opened_keeps(self, ir: Ir)
        requires
            ir.wf(),
            self.lowerable(ir),
            ir.next_block + 2 <= usize::MAX,
        ensures
            ir.keeps(self.opened(ir)),
            self.opened(ir).blocks.contains_key(self.header(ir)),
            self.opened(ir).blocks.contains_key(self.after(ir)),
            self.opened(ir).blocks[self.header(ir)].args.len() == self.iter_args_init(ir).len() + 1,
            self.opened(ir).has_body(self.op, 0),
            self.opened(ir).entry(self.op, 0) == self.entry(ir),
            self.opened(ir).exit(self.op, 0) == self.exit(ir),
    {
        ir.entry_exit_in_range(self.op, 0);
        ir.position_in_range(self.op);
        let s = self.opened(ir);
        assert(forall|b: BlockId| ir.blocks.contains_key(b) ==> b < ir.next_block) by {
            reveal(Ir::wf);
        }
        assert forall|v: Value| ir.has_value(v) implies #[trigger] s.has_value(v) by {}
    }

    /// Lets the header decide, and the block before it enter.
    fn head(
        &self,
        ctx: &mut Context,
        rewriter: &mut IRRewriter,
        header: BlockId,
        exit_block: BlockId,
        pre_header: BlockId,
        for_body_entry: BlockId,
        lower_bound: Value,
        upper_bound: Value,
        iter_vars_init: &Vec<Value>,
        Ghost(ir): Ghost<Ir>,
    )
        requires
            old(ctx).wf(),
            ir.wf(),
            self.lowerable(ir),
            ir.next_block + 2 <= usize::MAX,
            old(ctx)@ == self.opened(ir),
            header == self.header(ir),
            exit_block == self.after(ir),
            pre_header == self.pre_header(ir),
            for_body_entry == self.entry(ir),
            lower_bound == self.lower_bound(ir),
            upper_bound == self.upper_bound(ir),
            iter_vars_init@ == self.iter_args_init(ir),
            old(rewriter).insertion_point() == OpInsertionPoint::AtBlockEnd(header),
        ensures
            final(ctx).wf(),
            final(ctx).extends(old(ctx).journal()),
            final(ctx)@ == self.headed(ir),
            self.opened(ir).keeps(final(ctx)@),
            ir.next_op + 3 <= usize::MAX,
    {
        let ghost s1 = ctx@;
        proof {
            ir.entry_exit_in_range(self.op, 0);
            ir.position_in_range(self.op);
            ir.operands_there(self.op);
            ir.ops[self.op].earlier_segment(0, 1);
            ir.ops[self.op].segment_in_range(0);
            ir.ops[self.op].segment_in_range(1);
            self.opened_keeps(ir);
            assert(ir.has_value(upper_bound)) by {
                assert(upper_bound == ir.ops[self.op].operands[ir.ops[self.op].segment_start(0) + 1]);
            }
            assert(ir.has_value(lower_bound)) by {
                assert(lower_bound == ir.ops[self.op].operands[ir.ops[self.op].segment_start(0) + 0]);
            }
            assert forall|j: int| 0 <= j < iter_vars_init@.len() implies ir.has_value(
                #[trigger] iter_vars_init@[j],
            ) by {
                let start = ir.ops[self.op].segment_start(1);
                assert(iter_vars_init@[j] == ir.ops[self.op].operands[start + j]);
            }
        }
        let header_args = ctx.arguments_from(header, 0);
        assert(header_args@ =~= self.header_values(ir));
        let cond: OpId = ICmpOp::new(ctx, ICmpPredicate::ULT, header_args[0], upper_bound);
        proof {
            assert(s1.next_op < usize::MAX) by {
                reveal(Ir::wf);
            }
            s1.insert_at_end(
                OpView::llvm_compare(ICmpPredicate::ULT, header_args@[0], upper_bound),
                header,
            );
        }
        rewriter.insert_op(ctx, cond);
        let ghost s2 = ctx@;

        let ghost decide = OpView::llvm_cond_br(
            Value::OpResult { op: cond, idx: 0 },
            for_body_entry,
            header_args@,
            exit_block,
            Seq::empty(),
        );
        assert forall|j: int| 0 <= j < header_args@.len() implies s2.has_value(
            #[trigger] header_args@[j],
        ) by {
            assert(s1.has_value(header_args@[j]));
        }
        let cond_br: OpId = LlvmCondBrOp::new(
            ctx,
            Value::OpResult { op: cond, idx: 0 },
            for_body_entry,
            header_args,
            exit_block,
            Vec::new(),
        );
        proof {
            assert(s2.next_op < usize::MAX) by {
                reveal(Ir::wf);
            }
            s2.insert_at_end(decide, header);
        }
        rewriter.insert_op(ctx, cond_br);
        let ghost s3 = ctx@;

        // The pre-header must branch to the header with the initial induction variable and
        // loop-carried variables.
        rewriter.set_insertion_point(OpInsertionPoint::AtBlockEnd(pre_header));
        let mut enter_operands: Vec<Value> = vec![lower_bound];
        enter_operands.extend_from_slice(iter_vars_init.as_slice());
        assert(enter_operands@ =~= seq![lower_bound] + iter_vars_init@);
        assert forall|j: int| 0 <= j < enter_operands@.len() implies s3.has_value(
            #[trigger] enter_operands@[j],
        ) by {
            if j > 0 {
                assert(enter_operands@[j] == iter_vars_init@[j - 1]);
            }
            assert(ir.has_value(enter_operands@[j]));
            assert(s1.has_value(enter_operands@[j]));
            assert(s2.has_value(enter_operands@[j]));
        }
        let pre_header_br: OpId = LlvmBrOp::new(ctx, header, enter_operands);
        proof {
            assert(s3.next_op < usize::MAX) by {
                reveal(Ir::wf);
            }
            s3.insert_at_end(
                OpView::llvm_br(header, seq![lower_bound] + iter_vars_init@),
                pre_header,
            );
        }
        rewriter.insert_op(ctx, pre_header_br);
    }

    /// Lets the body go back to the header.
    fn loop_back(
        &self,
        ctx: &mut Context,
        rewriter: &mut IRRewriter,
        header: BlockId,
        iv: Value,
        step: Value,
        Ghost(ir): Ghost<Ir>,
    )
        requires
            old(ctx).wf(),
            ir.wf(),
            self.lowerable(ir),
            ir.next_block + 2 <= usize::MAX,
            ir.next_op + 3 <= usize::MAX,
            old(ctx)@ == self.headed(ir),
            self.opened(ir).keeps(old(ctx)@),
            header == self.header(ir),
            iv == self.induction_variable(ir),
            step == self.step(ir),
        ensures
            final(ctx).wf(),
            final(ctx).extends(old(ctx).journal()),
            final(ctx)@ == self.looped(ir),
            ir.next_op + 5 <= usize::MAX,
            final(rewriter).insertion_point() == OpInsertionPoint::AfterOperation(self.repeat(ir)),
    {
        let ghost s4 = ctx@;
        let ghost y = self.yield_op(ir);
        let ghost exit = self.exit(ir);
        proof {
            ir.entry_exit_in_range(self.op, 0);
            ir.position_in_range(self.op);
            ir.operands_there(self.op);
            ir.operands_there(y);
            ir.ops[self.op].earlier_segment(0, 1);
            ir.ops[self.op].segment_in_range(0);
            self.opened_keeps(ir);
            ir.moved_from_holder(self.op);
            assert(ir.has_value(step)) by {
                assert(step == ir.ops[self.op].operands[ir.ops[self.op].segment_start(0) + 2]);
            }
            assert(ir.has_value(iv));
            assert(self.opened(ir).has_value(step) && self.opened(ir).has_value(iv));
            assert(forall|o: OpId| ir.ops.contains_key(o) ==> o < ir.next_op) by {
                reveal(Ir::wf);
            }
            assert(forall|b: BlockId| ir.blocks.contains_key(b) ==> b < ir.next_block) by {
                reveal(Ir::wf);
            }
            assert(s4.ops[y] == ir.ops[y]);
            assert(s4.blocks[exit].ops == ir.blocks[exit].ops);
            assert(s4.exit_op(self.op, 0) == y);
        }
        let yield_op: OpId = self.get_yield(ctx, 0).get_operation();
        rewriter.set_insertion_point(OpInsertionPoint::AfterOperation(yield_op));
        let iv_next: OpId = AddOp::new(ctx, iv, step);
        let ghost advance = OpView::llvm_add(iv, step, Type::signless(64));
        proof {
            assert(s4.next_op < usize::MAX) by {
                reveal(Ir::wf);
            }
            assert(s4.def(iv).ty == Type::signless(64));
            s4.insert_after_last(advance, y);
        }
        rewriter.append_op(ctx, iv_next);
        let ghost s5 = ctx@;

        let yielded = ctx.operands(yield_op);
        let mut branch_operands: Vec<Value> = vec![Value::OpResult { op: iv_next, idx: 0 }];
        branch_operands.extend_from_slice(yielded.as_slice());
        let ghost operands = seq![Value::OpResult { op: iv_next, idx: 0 }] + ir.ops[y].operands;
        assert(branch_operands@ =~= operands);
        assert forall|j: int| 0 <= j < operands.len() implies s5.has_value(
            #[trigger] operands[j],
        ) by {
            if j > 0 {
                let v = ir.ops[y].operands[j - 1];
                assert(operands[j] == v);
                assert(ir.has_value(v));
                assert(self.opened(ir).has_value(v));
                assert(s4.has_value(v));
            }
        }
        let for_body_exit_br: OpId = LlvmBrOp::new(ctx, header, branch_operands);
        proof {
            assert(s5.next_op < usize::MAX) by {
                reveal(Ir::wf);
            }
            s5.insert_after_last(OpView::llvm_br(header, operands), iv_next);
        }
        rewriter.append_op(ctx, for_body_exit_br);
        let ghost s6 = ctx@;
        proof {
            assert(s6.ops[y] == ir.ops[y]);
            s6.resultless_unused(y);
        }
        ctx.erase_op(yield_op);
    }

    /// Inlines the body and removes the loop.
    fn dissolve(&self, ctx: &mut Context, header: BlockId, body: RegionId, Ghost(ir): Ghost<Ir>)
        requires
            old(ctx).wf(),
            ir.wf(),
            self.lowerable(ir),
            ir.next_block + 2 <= usize::MAX,
            ir.next_op + 5 <= usize::MAX,
            old(ctx)@ == self.looped(ir),
            header == self.header(ir),
            body == self.body(ir),
        ensures
            final(ctx).wf(),
            final(ctx).extends(old(ctx).journal()),
            final(ctx)@ == self.lowered(ir),
    {
        let ghost s7 = ctx@;
        proof {
            ir.entry_exit_in_range(self.op, 0);
            ir.position_in_range(self.op);
            self.opened_keeps(ir);
            ir.moved_from_holder(self.op);
            self.looped_blocks(ir);
            ir.ops[self.op].segment_in_range(1);
            assert(forall|o: OpId| ir.ops.contains_key(o) ==> o < ir.next_op) by {
                reveal(Ir::wf);
            }
            assert(self.op != self.yield_op(ir)) by {
                assert(ir.ops[self.op].parent != ir.ops[self.yield_op(ir)].parent);
            }
        }
        // Inline the body of the loop behind the header.
        ctx.inline_region(body, header);
        // Replace the results of the loop by the arguments of the header, except the induction
        // variable, which is not used outside.
        ctx.replace_results(self.op, header, 1);
        let ghost s9 = ctx@;
        proof {
            assert(s9.ops[self.op].regions == ir.ops[self.op].regions);
        }
        ctx.erase_op(self.op);
        proof {
            self.dissolved_is_lowered(ir);
        }
    }

    /// Lowers the loop to branches.
    pub fn rewrite(&self, ctx: &mut Context, rewriter: &mut IRRewriter) -> (result: Result<
        (),
        ForOpConversionErr,
    >)
        requires
            old(ctx).wf(),
            self.lowerable(old(ctx)@),
        ensures
            result == Ok::<(), ForOpConversionErr>(()),
            final(ctx).wf(),
            final(ctx).extends(old(ctx).journal()),
            final(ctx)@ == self.lowered(old(ctx)@),
            final(rewriter).insertion_point() == OpInsertionPoint::AfterOperation(
                self.repeat(old(ctx)@),
            ),
    {
        let ghost ir = ctx@;
        proof {
            ir.entry_exit_in_range(self.op, 0);
            ir.ops[self.op].earlier_segment(0, 1);
        }
        let lower_bound: Value = self.get_lower_bound(ctx);
        let upper_bound: Value = self.get_upper_bound(ctx);
        let step: Value = self.get_step(ctx);
        let iter_vars_init = self.get_iter_args_init(ctx);
        let iv: Value = self.get_induction_variable(ctx);
        let for_body_entry: BlockId = self.get_entry(ctx, 0);
        let body: RegionId = ctx.regions(self.op)[0];
        let pre_header: BlockId = ctx.parent_block(self.op).unwrap();

        let (header, exit_block) = self.open(ctx, rewriter);
        self.head(
            ctx,
            rewriter,
            header,
            exit_block,
            pre_header,
            for_body_entry,
            lower_bound,
            upper_bound,
            &iter_vars_init,
            Ghost(ir),
        );
        self.loop_back(ctx, rewriter, header, iv, step, Ghost(ir));
        self.dissolve(ctx, header, body, Ghost(ir));
        Ok(())
    }
}

} // verus!
