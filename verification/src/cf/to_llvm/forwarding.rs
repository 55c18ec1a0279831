//! Branches forward to a block what it takes, before a lowering and after it.

use crate::cf::ops::{BrOp, CondBrOp, ExecuteRegionOp, ForOp, IfOp, NDForOp};
use crate::cf::to_llvm::CFToLLVM;
use crate::ir::model::{Def, Ir, OpView};
use crate::ir::segments::Segments;
use crate::ir::types::{BlockId, OpId, OpKind, Type, Value};
use vstd::prelude::*;

verus! {

impl Type {
    /// What the type is once it is converted: an index is a 64-bit integer.
    pub open spec fn converted(self) -> Type {
        if self is Index {
            Type::signless(64)
        } else {
            self
        }
    }
}

impl Ir {
    /// The types of the arguments of a block, once they are converted.
    pub open spec fn argument_types(self, block: BlockId) -> Seq<Type> {
        self.blocks[block].args.map_values(|d: Def| d.ty.converted())
    }

    /// The types of values, once they are converted.
    pub open spec fn lowered_types(self, values: Seq<Value>) -> Seq<Type> {
        values.map_values(|v: Value| self.def(v).ty.converted())
    }

    /// Does the block take values of the types of these, once all types are converted?
    pub open spec fn takes(self, dest: BlockId, values: Seq<Value>) -> bool {
        self.lowered_types(values) == self.argument_types(dest)
    }

    /// Does an operation, if it is a branch, forward to each of its targets what that takes?
    pub open spec fn forwards_well(self, o: OpId) -> bool {
        let view = self.ops[o];
        match view.kind {
            OpKind::CfBr | OpKind::LlvmBr => {
                &&& view.successors.len() == 1
                &&& self.takes(view.successors[0], view.operands)
            },
            OpKind::CfCondBr | OpKind::LlvmCondBr => {
                &&& view.successors.len() == 2
                &&& view.has_segment(2)
                &&& self.takes(view.successors[0], view.segment(1))
                &&& self.takes(view.successors[1], view.segment(2))
            },
            _ => true,
        }
    }

    /// Do all branches forward to their targets what those take?
    pub open spec fn all_forward_well(self) -> bool {
        forall|o: OpId| #[trigger] self.ops.contains_key(o) ==> self.forwards_well(o)
    }

    /// A branch whose operands are replaced by others of the same types still forwards what
    /// its targets take, if those take what they took.
    pub(crate) proof fn still_forwards_well(self, after: Ir, o: OpId)
        requires
            self.wf(),
            self.ops.contains_key(o),
            self.forwards_well(o),
            after.ops[o].kind == self.ops[o].kind,
            after.ops[o].successors == self.ops[o].successors,
            after.ops[o].segments == self.ops[o].segments,
            after.ops[o].operands.len() == self.ops[o].operands.len(),
            forall|i: int|
                0 <= i < self.ops[o].operands.len() ==> after.def(
                    #[trigger] after.ops[o].operands[i],
                ).ty.converted() == self.def(self.ops[o].operands[i]).ty.converted(),
            forall|b: BlockId|
                self.blocks.contains_key(b) ==> #[trigger] after.argument_types(b)
                    == self.argument_types(b),
        ensures
            after.forwards_well(o),
    {
        let before = self.ops[o];
        let now = after.ops[o];
        self.successors_there(o);
        match before.kind {
            OpKind::CfBr | OpKind::LlvmBr => {
                assert(self.blocks.contains_key(before.successors[0]));
                assert(after.lowered_types(now.operands) =~= self.lowered_types(before.operands));
            },
            OpKind::CfCondBr | OpKind::LlvmCondBr => {
                assert(self.blocks.contains_key(before.successors[0]));
                assert(self.blocks.contains_key(before.successors[1]));
                before.earlier_segment(1, 2);
                before.segment_in_range(1);
                before.segment_in_range(2);
                let i = before.segment_start(1);
                let j = before.segment_start(2);
                assert forall|k: int| 0 <= k < before.segments[1] implies after.def(
                    #[trigger] now.segment(1)[k],
                ).ty.converted() == self.def(before.segment(1)[k]).ty.converted() by {
                    assert(now.segment(1)[k] == now.operands[i + k]);
                    assert(before.segment(1)[k] == before.operands[i + k]);
                }
                assert forall|k: int| 0 <= k < before.segments[2] implies after.def(
                    #[trigger] now.segment(2)[k],
                ).ty.converted() == self.def(before.segment(2)[k]).ty.converted() by {
                    assert(now.segment(2)[k] == now.operands[j + k]);
                    assert(before.segment(2)[k] == before.operands[j + k]);
                }
                assert(after.lowered_types(now.segment(1)) =~= self.lowered_types(before.segment(1)));
                assert(after.lowered_types(now.segment(2)) =~= self.lowered_types(before.segment(2)));
            },
            _ => {},
        }
    }

    /// A new conditional branch forwards what it was given.
    pub(crate) proof fn cond_br_parts(
        condition: Value,
        true_dest: BlockId,
        true_dest_opds: Seq<Value>,
        false_dest: BlockId,
        false_dest_opds: Seq<Value>,
    )
        requires
            true_dest_opds.len() <= u32::MAX,
            false_dest_opds.len() <= u32::MAX,
        ensures
            ({
                let view = OpView::llvm_cond_br(
                    condition,
                    true_dest,
                    true_dest_opds,
                    false_dest,
                    false_dest_opds,
                );
                &&& view.has_segment(2)
                &&& view.segment(1) == true_dest_opds
                &&& view.segment(2) == false_dest_opds
            }),
    {
        let view = OpView::llvm_cond_br(
            condition,
            true_dest,
            true_dest_opds,
            false_dest,
            false_dest_opds,
        );
        let groups = seq![seq![condition], true_dest_opds, false_dest_opds];
        Segments::flatten_three(seq![condition], true_dest_opds, false_dest_opds);
        assert(Segments::sizes(groups) =~= view.segments);
        view.segment_is_group(groups, 1);
        view.segment_is_group(groups, 2);
    }
}

impl BrOp {
    /// If all branches forward to their targets what those take, they do so after the branch is
    /// lowered.
    pub proof fn lowering_keeps_forwarding(self, ir: Ir)
        requires
            ir.wf(),
            self.lowerable(ir),
            ir.ops[self.op].kind is CfBr,
            ir.all_forward_well(),
        ensures
            self.lowered(ir).all_forward_well(),
    {
        ir.swapping_keeps_forwarding(
            self.op,
            OpView::llvm_br(ir.ops[self.op].successors[0], ir.ops[self.op].operands),
        );
    }
}

impl CondBrOp {
    /// If all branches forward to their targets what those take, they do so after the branch is
    /// lowered.
    pub proof fn lowering_keeps_forwarding(self, ir: Ir)
        requires
            ir.wf(),
            self.lowerable(ir),
            ir.ops[self.op].kind is CfCondBr,
            ir.all_forward_well(),
        ensures
            self.lowered(ir).all_forward_well(),
    {
        let op = ir.ops[self.op];
        op.earlier_segment(1, 2);
        op.segment_in_range(1);
        op.segment_in_range(2);
        Ir::cond_br_parts(
            op.operands[0],
            op.successors[0],
            op.segment(1),
            op.successors[1],
            op.segment(2),
        );
        ir.swapping_keeps_forwarding(
            self.op,
            OpView::llvm_cond_br(
                op.operands[0],
                op.successors[0],
                op.segment(1),
                op.successors[1],
                op.segment(2),
            ),
        );
    }
}

impl Ir {
    /// Swapping a branch for another that forwards the same to the same targets keeps what is
    /// forwarded.
    proof fn swapping_keeps_forwarding(self, op: OpId, view: OpView)
        requires
            self.wf(),
            self.swappable(op),
            self.all_forward_well(),
            self.forwards_well(op),
            view.kind is LlvmBr ==> self.ops[op].kind is CfBr && view.successors.len() == 1
                && view.successors[0] == self.ops[op].successors[0] && view.operands
                == self.ops[op].operands,
            view.kind is LlvmCondBr ==> self.ops[op].kind is CfCondBr && view.successors.len() == 2
                && view.successors[0] == self.ops[op].successors[0] && view.successors[1]
                == self.ops[op].successors[1] && view.has_segment(2) && view.segment(1)
                == self.ops[op].segment(1) && view.segment(2) == self.ops[op].segment(2),
            view.kind is LlvmBr || view.kind is LlvmCondBr,
        ensures
            self.swapped(op, view).all_forward_well(),
    {
        let after = self.swapped(op, view);
        let new = self.op_at(0);
        self.position_in_range(op);
        self.operands_there(op);
        assert(after.next_op - 1 == self.next_op);
        assert(!self.ops.contains_key(new)) by {
            reveal(Ir::wf);
        }
        assert forall|v: Value| self.has_value(v) implies #[trigger] after.def(v) == self.def(
            v,
        ) by {}
        assert forall|b: BlockId| self.blocks.contains_key(b) implies #[trigger] after.argument_types(
            b,
        ) == self.argument_types(b) by {
            assert(after.argument_types(b) =~= self.argument_types(b));
        }
        assert forall|o: OpId| #[trigger] after.ops.contains_key(o) implies after.forwards_well(
            o,
        ) by {
            if o == new {
                self.successors_there(op);
                assert forall|values: Seq<Value>| self.has_values(values) implies after.lowered_types(
                    values,
                ) == #[trigger] self.lowered_types(values) by {
                    assert forall|i: int| 0 <= i < values.len() implies after.def(
                        #[trigger] values[i],
                    ) == self.def(values[i]) by {
                        assert(self.has_value(values[i]));
                    }
                    assert(after.lowered_types(values) =~= self.lowered_types(values));
                }
                if view.kind is LlvmCondBr {
                    let old_view = self.ops[op];
                    old_view.earlier_segment(1, 2);
                    old_view.segment_in_range(1);
                    old_view.segment_in_range(2);
                    assert(self.has_values(old_view.segment(1))) by {
                        assert forall|i: int| 0 <= i < old_view.segment(1).len() implies
                            self.has_value(#[trigger] old_view.segment(1)[i]) by {
                            assert(old_view.segment(1)[i] == old_view.operands[
                            old_view.segment_start(1) + i]);
                        }
                    }
                    assert(self.has_values(old_view.segment(2))) by {
                        assert forall|i: int| 0 <= i < old_view.segment(2).len() implies
                            self.has_value(#[trigger] old_view.segment(2)[i]) by {
                            assert(old_view.segment(2)[i] == old_view.operands[
                            old_view.segment_start(2) + i]);
                        }
                    }
                    assert(self.lowered_types(old_view.segment(1)) == after.lowered_types(
                        view.segment(1),
                    ));
                    assert(self.lowered_types(old_view.segment(2)) == after.lowered_types(
                        view.segment(2),
                    ));
                    assert(after.ops[new].segment(1) == view.segment(1));
                    assert(after.ops[new].segment(2) == view.segment(2));
                    assert(after.ops[new].has_segment(2));
                } else {
                    assert(self.lowered_types(self.ops[op].operands) == after.lowered_types(
                        view.operands,
                    ));
                }
            } else {
                assert(self.ops.contains_key(o));
                self.operands_there(o);
                assert forall|i: int| 0 <= i < self.ops[o].operands.len() implies after.def(
                    #[trigger] after.ops[o].operands[i],
                ).ty.converted() == self.def(self.ops[o].operands[i]).ty.converted() by {
                    assert(self.has_value(self.ops[o].operands[i]));
                }
                self.still_forwards_well(after, o);
            }
        }
    }
}

impl ForOp {
    /// Do the types that meet in the loop agree? The induction variable and the lower bound are
    /// indices; the results, their initial values, the loop-carried variables and the yielded
    /// values have the same types.
    pub open spec fn types_agree(self, ir: Ir) -> bool {
        let types = ir.ops[self.op].results.map_values(|d: Def| d.ty.converted());
        &&& ir.def(self.induction_variable(ir)).ty.converted() == Type::signless(64)
        &&& ir.def(self.lower_bound(ir)).ty.converted() == Type::signless(64)
        &&& types == ir.lowered_types(self.iter_args_init(ir))
        &&& types == ir.lowered_types(self.loop_carried_variables(ir))
        &&& types == ir.lowered_types(ir.ops[self.yield_op(ir)].operands)
    }

    /// What stands for a value after the lowering has the type of that value, and blocks take
    /// what they took.
    pub(crate) proof fn lowering_keeps_types(self, ir: Ir)
        requires
            ir.wf(),
            self.lowerable(ir),
            self.types_agree(ir),
            self.lowered(ir).wf(),
        ensures
            forall|v: Value| #[trigger]
                ir.has_value(v) ==> self.lowered(ir).def(self.renamed(ir, v)).ty.converted()
                    == ir.def(v).ty.converted(),
            forall|b: BlockId|
                ir.blocks.contains_key(b) ==> #[trigger] self.lowered(ir).argument_types(b)
                    == ir.argument_types(b),
    {
        let after = self.lowered(ir);
        let op = ir.ops[self.op];
        let inits = self.iter_args_init(ir);
        op.segment_in_range(1);
        assert(forall|o: OpId| ir.ops.contains_key(o) ==> o < ir.next_op) by {
            reveal(Ir::wf);
        }
        assert(forall|b: BlockId| ir.blocks.contains_key(b) ==> b < ir.next_block) by {
            reveal(Ir::wf);
        }
        assert(after.next_op <= usize::MAX && after.next_block <= usize::MAX) by {
            reveal(Ir::wf);
        }
        ir.entry_exit_in_range(self.op, 0);
        let entry = self.entry(ir);
        let args = ir.blocks[entry].args;
        assert forall|b: BlockId| ir.blocks.contains_key(b) implies
            #[trigger] after.argument_types(b) == ir.argument_types(b) by {
            assert(after.argument_types(b) =~= ir.argument_types(b));
        }
        assert forall|v: Value| #[trigger] ir.has_value(v) implies after.def(
            self.renamed(ir, v),
        ).ty.converted() == ir.def(v).ty.converted() by {
            match v {
                Value::OpResult { op: o, idx } => {
                    if o == self.op {
                        let types = op.results.map_values(|d: Def| d.ty.converted());
                        assert(types[idx as int] == ir.lowered_types(inits)[idx as int]);
                        assert(self.header_args(ir)[idx + 1].ty.converted() == ir.def(
                            inits[idx as int],
                        ).ty.converted());
                    }
                },
                Value::BlockArgument { block, idx } => {
                    assert(after.argument_types(block)[idx as int] == ir.argument_types(
                        block,
                    )[idx as int]);
                },
            }
        }
    }

    /// If all branches forward to their targets what those take, they do so after the loop is
    /// lowered.
    pub proof fn lowering_keeps_forwarding(self, ir: Ir)
        requires
            ir.wf(),
            self.lowerable(ir),
            self.types_agree(ir),
            ir.all_forward_well(),
            self.lowered(ir).wf(),
        ensures
            self.lowered(ir).all_forward_well(),
    {
        let after = self.lowered(ir);
        let op = ir.ops[self.op];
        let inits = self.iter_args_init(ir);
        let header = self.header(ir);
        assert(forall|o: OpId| ir.ops.contains_key(o) ==> o < ir.next_op) by {
            reveal(Ir::wf);
        }
        assert(forall|b: BlockId| ir.blocks.contains_key(b) ==> b < ir.next_block) by {
            reveal(Ir::wf);
        }
        assert(after.next_op <= usize::MAX && after.next_block <= usize::MAX) by {
            reveal(Ir::wf);
        }
        ir.entry_exit_in_range(self.op, 0);
        op.earlier_segment(0, 1);
        op.segment_in_range(0);
        op.segment_in_range(1);
        self.lowering_keeps_types(ir);
        let y = ir.ops[self.yield_op(ir)];
        let types = op.results.map_values(|d: Def| d.ty.converted());
        let header_types = seq![Type::signless(64)] + types;
        assert(types.len() == inits.len());
        assert(after.argument_types(header) =~= header_types) by {
            let args = self.header_args(ir);
            assert(after.blocks[header].args == args);
            assert forall|i: int| 0 <= i < inits.len() implies (#[trigger] args[i + 1]).ty.converted()
                == types[i] by {
                assert(types[i] == ir.lowered_types(inits)[i]);
            }
        }
        let entry = self.entry(ir);
        assert(after.argument_types(entry) =~= header_types) by {
            let vars = self.loop_carried_variables(ir);
            let args = ir.blocks[entry].args;
            assert(ir.lowered_types(vars).len() == types.len());
            assert(args.len() == types.len() + 1);
            assert forall|i: int| 0 <= i < types.len() implies (#[trigger] args[i + 1]).ty.converted()
                == types[i] by {
                assert(ir.lowered_types(vars)[i] == ir.def(vars[i]).ty.converted());
            }
            assert(ir.argument_types(entry) =~= header_types);
        }
        ir.operands_there(self.op);
        ir.operands_there(self.yield_op(ir));
        assert forall|i: int| 0 <= i < inits.len() implies ir.has_value(#[trigger] inits[i]) by {
            assert(inits[i] == op.operands[op.segment_start(1) + i]);
        }
        let lower = self.lower_bound(ir);
        assert(lower == op.operands[op.segment_start(0) + 0]);
        assert(ir.has_value(lower));
        let entered = self.all_renamed(ir, seq![lower] + inits);
        assert(after.lowered_types(entered) =~= header_types) by {
            assert forall|i: int| 0 <= i < inits.len() implies after.def(
                #[trigger] entered[i + 1],
            ).ty.converted() == types[i] by {
                assert(ir.has_value(inits[i]));
                assert(types[i] == ir.lowered_types(inits)[i]);
            }
        }
        let next = Value::OpResult { op: self.advance(ir), idx: 0 };
        let repeated = seq![next] + self.all_renamed(ir, y.operands);
        assert(after.lowered_types(repeated) =~= header_types) by {
            assert(ir.lowered_types(y.operands).len() == types.len());
            assert forall|i: int| 0 <= i < types.len() implies after.def(
                #[trigger] repeated[i + 1],
            ).ty.converted() == types[i] by {
                assert(ir.has_value(y.operands[i]));
                assert(types[i] == ir.lowered_types(y.operands)[i]);
            }
            assert(after.def(next).ty.converted() == Type::signless(64));
        }
        let handed = Seq::new(
            inits.len() + 1,
            |i: int| Value::BlockArgument { block: header, idx: i as usize },
        );
        assert(after.lowered_types(handed) =~= header_types) by {
            assert forall|i: int| 0 <= i < handed.len() implies after.def(#[trigger] handed[i]).ty.converted()
                == header_types[i] by {
                assert(after.argument_types(header)[i] == after.blocks[header].args[i].ty.converted());
            }
        }
        let none: Seq<Value> = Seq::empty();
        assert(after.lowered_types(none) =~= after.argument_types(self.after(ir)));
        Ir::cond_br_parts(
            Value::OpResult { op: self.compare(ir), idx: 0 },
            entry,
            handed,
            self.after(ir),
            none,
        );
        assert forall|o: OpId| #[trigger] after.ops.contains_key(o) implies after.forwards_well(
            o,
        ) by {
            if o == self.decide(ir) {
                assert(after.ops[o].segment(1) == handed);
                assert(after.ops[o].segment(2) == none);
                assert(after.ops[o].has_segment(2));
            } else if ir.next_op <= o {
            } else {
                ir.operands_there(o);
                assert forall|i: int| 0 <= i < ir.ops[o].operands.len() implies after.def(
                    #[trigger] after.ops[o].operands[i],
                ).ty.converted() == ir.def(ir.ops[o].operands[i]).ty.converted() by {
                    assert(ir.has_value(ir.ops[o].operands[i]));
                }
                ir.still_forwards_well(after, o);
            }
        }
    }
}

impl ExecuteRegionOp {
    /// Do the types that meet in the operation agree? The region takes nothing, and yields what
    /// the results are.
    pub open spec fn types_agree(self, ir: Ir) -> bool {
        &&& ir.blocks[self.entry(ir)].args.len() == 0
        &&& ir.ops[self.op].results.map_values(|d: Def| d.ty.converted()) == ir.lowered_types(
            ir.ops[self.yield_op(ir)].operands,
        )
    }

    /// If all branches forward to their targets what those take, they do so after the operation
    /// is lowered.
    pub proof fn lowering_keeps_forwarding(self, ir: Ir)
        requires
            ir.wf(),
            self.lowerable(ir),
            self.types_agree(ir),
            ir.all_forward_well(),
            self.lowered(ir).wf(),
        ensures
            self.lowered(ir).all_forward_well(),
    {
        let after = self.lowered(ir);
        let cont = self.continuation(ir);
        let op = ir.ops[self.op];
        assert(forall|o: OpId| ir.ops.contains_key(o) ==> o < ir.next_op) by {
            reveal(Ir::wf);
        }
        assert(forall|b: BlockId| ir.blocks.contains_key(b) ==> b < ir.next_block) by {
            reveal(Ir::wf);
        }
        assert(after.next_op <= usize::MAX && after.next_block <= usize::MAX) by {
            reveal(Ir::wf);
        }
        ir.entry_exit_in_range(self.op, 0);
        assert forall|b: BlockId| ir.blocks.contains_key(b) implies
            #[trigger] after.argument_types(b) == ir.argument_types(b) by {
            assert(after.argument_types(b) =~= ir.argument_types(b));
        }
        assert forall|v: Value| #[trigger] ir.has_value(v) implies after.def(
            Ir::substituted(v, self.op, cont, 0),
        ).ty.converted() == ir.def(v).ty.converted() by {}
        let y = ir.ops[self.yield_op(ir)];
        ir.operands_there(self.yield_op(ir));
        let left = self.all_renamed(ir, y.operands);
        assert(after.lowered_types(left) =~= ir.lowered_types(y.operands)) by {
            assert forall|i: int| 0 <= i < left.len() implies after.def(#[trigger] left[i]).ty.converted()
                == ir.def(y.operands[i]).ty.converted() by {
                assert(ir.has_value(y.operands[i]));
            }
        }
        let none: Seq<Value> = Seq::empty();
        assert(after.lowered_types(none) =~= after.argument_types(self.entry(ir)));
        assert forall|o: OpId| #[trigger] after.ops.contains_key(o) implies after.forwards_well(
            o,
        ) by {
            if o < ir.next_op {
                ir.operands_there(o);
                assert forall|i: int| 0 <= i < ir.ops[o].operands.len() implies after.def(
                    #[trigger] after.ops[o].operands[i],
                ).ty.converted() == ir.def(ir.ops[o].operands[i]).ty.converted() by {
                    assert(ir.has_value(ir.ops[o].operands[i]));
                }
                ir.still_forwards_well(after, o);
            }
        }
    }
}

impl IfOp {
    /// Do the types that meet in the operation agree? The regions take nothing, and yield what
    /// the results are; without an `else` region there are no results.
    pub open spec fn types_agree(self, ir: Ir) -> bool {
        let types = ir.ops[self.op].results.map_values(|d: Def| d.ty.converted());
        &&& ir.blocks[self.entry(ir, 0)].args.len() == 0
        &&& types == ir.lowered_types(ir.ops[self.yield_op(ir, 0)].operands)
        &&& if self.has_else(ir) {
            &&& ir.blocks[self.entry(ir, 1)].args.len() == 0
            &&& types == ir.lowered_types(ir.ops[self.yield_op(ir, 1)].operands)
        } else {
            types.len() == 0
        }
    }

    /// If all branches forward to their targets what those take, they do so after the operation
    /// is lowered.
    pub proof fn lowering_keeps_forwarding(self, ir: Ir)
        requires
            ir.wf(),
            self.lowerable(ir),
            self.types_agree(ir),
            ir.all_forward_well(),
            self.lowered(ir).wf(),
        ensures
            self.lowered(ir).all_forward_well(),
    {
        let after = self.lowered(ir);
        let cont = self.continuation(ir);
        let op = ir.ops[self.op];
        assert(forall|o: OpId| ir.ops.contains_key(o) ==> o < ir.next_op) by {
            reveal(Ir::wf);
        }
        assert(forall|b: BlockId| ir.blocks.contains_key(b) ==> b < ir.next_block) by {
            reveal(Ir::wf);
        }
        assert(after.next_op <= usize::MAX && after.next_block <= usize::MAX) by {
            reveal(Ir::wf);
        }
        ir.entry_exit_in_range(self.op, 0);
        if self.has_else(ir) {
            ir.entry_exit_in_range(self.op, 1);
        }
        assert forall|b: BlockId| ir.blocks.contains_key(b) implies
            #[trigger] after.argument_types(b) == ir.argument_types(b) by {
            assert(after.argument_types(b) =~= ir.argument_types(b));
        }
        assert forall|v: Value| #[trigger] ir.has_value(v) implies after.def(
            Ir::substituted(v, self.op, cont, 0),
        ).ty.converted() == ir.def(v).ty.converted() by {}
        assert forall|i: int| i == 0 || (i == 1 && self.has_else(ir)) implies after.lowered_types(
            self.all_renamed(ir, (#[trigger] ir.ops[self.yield_op(ir, i)]).operands),
        ) == after.argument_types(cont) by {
            let y = ir.ops[self.yield_op(ir, i)];
            ir.operands_there(self.yield_op(ir, i));
            let left = self.all_renamed(ir, y.operands);
            assert forall|k: int| 0 <= k < left.len() implies after.def(#[trigger] left[k]).ty.converted()
                == ir.def(y.operands[k]).ty.converted() by {
                assert(ir.has_value(y.operands[k]));
            }
            assert(after.lowered_types(left) =~= ir.lowered_types(y.operands));
        }
        let none: Seq<Value> = Seq::empty();
        assert(after.lowered_types(none) =~= after.argument_types(self.entry(ir, 0)));
        assert(after.lowered_types(none) =~= after.argument_types(self.false_dest(ir)));
        Ir::cond_br_parts(
            Ir::substituted(self.condition(ir), self.op, cont, 0),
            self.entry(ir, 0),
            none,
            self.false_dest(ir),
            none,
        );
        assert forall|o: OpId| #[trigger] after.ops.contains_key(o) implies after.forwards_well(
            o,
        ) by {
            if o == self.decide(ir) {
                assert(after.ops[o].segment(1) == none);
                assert(after.ops[o].segment(2) == none);
                assert(after.ops[o].has_segment(2));
            } else if o < ir.next_op {
                ir.operands_there(o);
                assert forall|i: int| 0 <= i < ir.ops[o].operands.len() implies after.def(
                    #[trigger] after.ops[o].operands[i],
                ).ty.converted() == ir.def(ir.ops[o].operands[i]).ty.converted() by {
                    assert(ir.has_value(ir.ops[o].operands[i]));
                }
                ir.still_forwards_well(after, o);
            } else if o == self.leave_then(ir) {
                assert(after.takes(cont, after.ops[o].operands));
            } else {
                assert(after.takes(cont, after.ops[o].operands));
            }
        }
    }
}

impl NDForOp {
    /// Do the types that meet in the loop agree? The body takes an index for each of the
    /// dimensions, and the lower bounds are indices.
    pub open spec fn types_agree(self, ir: Ir) -> bool {
        let indices = Seq::new(self.dims(ir) as nat, |i: int| Type::signless(64));
        &&& ir.argument_types(self.entry(ir)) == indices
        &&& ir.lowered_types(self.lower_bounds(ir).take(self.dims(ir))) == indices
    }

    /// If all branches forward to their targets what those take, they do so after the loop is
    /// lowered. In the loops over one dimension each that are left, the types agree.
    pub proof fn lowering_keeps_forwarding(self, ir: Ir)
        requires
            ir.wf(),
            self.lowerable(ir),
            self.types_agree(ir),
            ir.all_forward_well(),
            self.lowered(ir).wf(),
        ensures
            self.lowered(ir).all_forward_well(),
            forall|i: int|
                0 <= i < self.dims(ir) ==> (ForOp { op: #[trigger] self.loop_op(ir, i) }).types_agree(
                    self.lowered(ir),
                ),
    {
        let after = self.lowered(ir);
        let n = self.dims(ir);
        assert(forall|o: OpId| ir.ops.contains_key(o) ==> o < ir.next_op) by {
            reveal(Ir::wf);
        }
        assert(forall|b: BlockId| ir.blocks.contains_key(b) ==> b < ir.next_block) by {
            reveal(Ir::wf);
        }
        assert(after.next_op <= usize::MAX && after.next_block <= usize::MAX) by {
            reveal(Ir::wf);
        }
        ir.entry_exit_in_range(self.op, 0);
        ir.position_in_range(self.op);
        assert forall|b: BlockId| ir.blocks.contains_key(b) implies
            #[trigger] after.argument_types(b) == ir.argument_types(b) by {
            assert(after.argument_types(b) =~= ir.argument_types(b));
        }
        assert forall|v: Value| #[trigger] ir.has_value(v) implies after.def(v).ty.converted() == ir.def(
            v,
        ).ty.converted() by {}
        let indices = self.indices(ir);
        assert(after.lowered_types(indices) =~= ir.argument_types(self.entry(ir))) by {
            assert forall|i: int| 0 <= i < n implies after.def(#[trigger] indices[i]).ty.converted()
                == Type::signless(64) by {
                let b = self.loop_entry(ir, n - 1 - i);
                assert(b == ir.next_block + (n - 1 - i));
            }
        }
        assert forall|o: OpId| #[trigger] after.ops.contains_key(o) implies after.forwards_well(
            o,
        ) by {
            if o < ir.next_op {
                ir.operands_there(o);
                assert forall|i: int| 0 <= i < ir.ops[o].operands.len() implies after.def(
                    #[trigger] after.ops[o].operands[i],
                ).ty.converted() == ir.def(ir.ops[o].operands[i]).ty.converted() by {
                    assert(ir.has_value(ir.ops[o].operands[i]));
                }
                ir.still_forwards_well(after, o);
            }
        }
        assert forall|i: int| 0 <= i < n implies (ForOp {
            op: #[trigger] self.loop_op(ir, i),
        }).types_agree(after) by {
            self.loop_types_agree(ir, i);
        }
    }

    /// The types that meet in loop `i` of the nest agree.
    pub(crate) proof fn loop_types_agree(self, ir: Ir, i: int)
        requires
            ir.wf(),
            self.lowerable(ir),
            self.types_agree(ir),
            self.lowered(ir).wf(),
            0 <= i < self.dims(ir),
        ensures
            (ForOp { op: self.loop_op(ir, i) }).types_agree(self.lowered(ir)),
    {
        let after = self.lowered(ir);
        let n = self.dims(ir);
        let this = ForOp { op: self.loop_op(ir, i) };
        let view = after.ops[this.op];
        let none: Seq<Value> = Seq::empty();
        let lowers = self.lower_bounds(ir);
        self.bounded(ir);
        assert(after.next_op <= usize::MAX && after.next_block <= usize::MAX
            && after.next_region <= usize::MAX) by {
            reveal(Ir::wf);
        }
        assert((2 * i) / 2 == i && (2 * i + 1) / 2 == i);
        assert(view.regions == seq![self.loop_region(ir, i)]);
        assert(this.entry(after) == self.loop_entry(ir, i));
        let groups = seq![view.operands, none];
        Segments::flatten_two(view.operands, none);
        assert(view.operands + none =~= view.operands);
        assert(Segments::sizes(groups) =~= view.segments);
        view.segment_is_group(groups, 0);
        view.segment_is_group(groups, 1);
        let d = n - 1 - i;
        assert(this.lower_bound(after) == lowers[d]);
        let op = ir.ops[self.op];
        op.earlier_segment(0, 2);
        op.segment_in_range(0);
        ir.operands_there(self.op);
        assert(lowers[d] == op.operands[op.segment_start(0) + d]);
        assert(ir.has_value(lowers[d]));
        assert(ir.lowered_types(lowers.take(n))[d] == Type::signless(64));
        assert(after.def(lowers[d]).ty == ir.def(lowers[d]).ty);
        let types = view.results.map_values(|d: Def| d.ty.converted());
        assert(types =~= after.lowered_types(this.iter_args_init(after)));
        assert(this.loop_carried_variables(after) =~= none);
        assert(types =~= after.lowered_types(none));
        ir.entry_exit_in_range(self.op, 0);
        assert(this.yield_op(after) == self.loop_yield(ir, i));
        assert(after.ops[self.loop_yield(ir, i)].operands == none);
    }
}

impl CFToLLVM {
    /// Do the types that meet in the operation agree?
    pub open spec fn types_agree(ir: Ir, op: OpId) -> bool {
        match ir.ops[op].kind {
            OpKind::CfFor => (ForOp { op }).types_agree(ir),
            OpKind::CfNDFor => (NDForOp { op }).types_agree(ir),
            OpKind::CfExecuteRegion => (ExecuteRegionOp { op }).types_agree(ir),
            OpKind::CfIf => (IfOp { op }).types_agree(ir),
            _ => true,
        }
    }

    /// If all branches forward to their targets what those take, and the types that meet in an
    /// operation agree, then all branches do so after the operation is lowered.
    pub proof fn lowering_keeps_forwarding(ir: Ir, op: OpId)
        requires
            ir.wf(),
            CFToLLVM::lowerable(ir, op),
            CFToLLVM::types_agree(ir, op),
            ir.all_forward_well(),
            CFToLLVM::lowered(ir, op).wf(),
        ensures
            CFToLLVM::lowered(ir, op).all_forward_well(),
    {
        match ir.ops[op].kind {
            OpKind::CfBr => (BrOp { op }).lowering_keeps_forwarding(ir),
            OpKind::CfCondBr => (CondBrOp { op }).lowering_keeps_forwarding(ir),
            OpKind::CfFor => (ForOp { op }).lowering_keeps_forwarding(ir),
            OpKind::CfNDFor => (NDForOp { op }).lowering_keeps_forwarding(ir),
            OpKind::CfExecuteRegion => (ExecuteRegionOp { op }).lowering_keeps_forwarding(ir),
            OpKind::CfIf => (IfOp { op }).lowering_keeps_forwarding(ir),
            _ => {},
        }
    }
}

} // verus!
