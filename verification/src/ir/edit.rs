//! Elementary changes as data: a journal of them can be replayed on another representation.

use crate::ir::model::Ir;
use crate::ir::types::{
    BlockId, BlockInsertionPoint, Location, OpId, OpInsertionPoint, OpKind, RegionId, Type, Value,
};
use vstd::prelude::*;

verus! {

/// One elementary change.
#[derive(Debug)]
pub enum Edit {
    CreateOp {
        kind: OpKind,
        result_types: Vec<Type>,
        operands: Vec<Value>,
        successors: Vec<BlockId>,
        num_regions: usize,
        segments: Vec<u32>,
    },
    CreateRegion { op: OpId },
    CreateBlock { point: BlockInsertionPoint, label: Option<String>, arg_types: Vec<Type> },
    InsertOp { op: OpId, at: OpInsertionPoint },
    MoveTail { first: OpId, dest: BlockId },
    InlineRegion { src: RegionId, after: BlockId },
    EraseOp { op: OpId },
    ReplaceResults { op: OpId, block: BlockId, first_arg: usize },
    RetypeArgument { block: BlockId, idx: usize, ty: Type },
    NameArgument { block: BlockId, idx: usize, name: String },
    NameResult { op: OpId, idx: usize, name: String },
    LocateBlock { block: BlockId, loc: Location },
    LocateOp { op: OpId, loc: Location },
    SetOperands { op: OpId, operands: Vec<Value>, segments: Vec<u32> },
}

impl Edit {
    /// The text of an optional name.
    pub open spec fn text(name: Option<String>) -> Option<Seq<char>> {
        match name {
            Some(name) => Some(name@),
            None => None,
        }
    }

    /// What the change makes of a representation.
    pub open spec fn apply(self, ir: Ir) -> Ir {
        match self {
            Edit::CreateOp {
                kind,
                result_types,
                operands,
                successors,
                num_regions,
                segments,
            } => ir.created_op(
                kind,
                result_types@,
                operands@,
                successors@,
                num_regions as nat,
                segments@,
            ),
            Edit::CreateRegion { op } => ir.created_region(op),
            Edit::CreateBlock { point, label, arg_types } => ir.created_block(
                point,
                Edit::text(label),
                arg_types@,
            ),
            Edit::InsertOp { op, at } => ir.inserted_op(op, at),
            Edit::MoveTail { first, dest } => ir.moved_tail(first, dest),
            Edit::InlineRegion { src, after } => ir.inlined_region(src, after),
            Edit::EraseOp { op } => ir.erased_op(op),
            Edit::ReplaceResults { op, block, first_arg } => ir.replaced_results(
                op,
                block,
                first_arg as int,
            ),
            Edit::RetypeArgument { block, idx, ty } => ir.retyped_argument(block, idx as int, ty),
            Edit::NameArgument { block, idx, name } => ir.named_argument(block, idx as int, name@),
            Edit::NameResult { op, idx, name } => ir.named_result(op, idx as int, name@),
            Edit::LocateBlock { block, loc } => ir.located_block(block, loc),
            Edit::LocateOp { op, loc } => ir.located_op(op, loc),
            Edit::SetOperands { op, operands, segments } => ir.set_operands(
                op,
                operands@,
                segments@,
            ),
        }
    }

    /// What the changes, one after the other, make of a representation.
    pub open spec fn replay(ir: Ir, edits: Seq<Edit>) -> Ir
        decreases edits.len(),
    {
        if edits.len() == 0 {
            ir
        } else {
            edits.last().apply(Edit::replay(ir, edits.drop_last()))
        }
    }

    /// Replaying one journal after another is replaying the two in one.
    pub proof fn replay_concat(ir: Ir, first: Seq<Edit>, second: Seq<Edit>)
        ensures
            Edit::replay(ir, first + second) == Edit::replay(Edit::replay(ir, first), second),
        decreases second.len(),
    {
        if second.len() == 0 {
            assert(first + second =~= first);
        } else {
            assert((first + second).drop_last() =~= first + second.drop_last());
            Edit::replay_concat(ir, first, second.drop_last());
        }
    }
}

} // verus!
