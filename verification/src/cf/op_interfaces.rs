//! Op interfaces of the control-flow dialect.

use crate::ir::context::Context;
use crate::ir::model::Ir;
use crate::ir::types::{BlockId, OpId, OpKind, RegionId};
use vstd::prelude::*;

verus! {

impl Ir {
    /// The entry (first) block of a region of an operation.
    pub open spec fn entry(self, op: OpId, reg_idx: int) -> BlockId {
        self.regions[self.ops[op].regions[reg_idx]].blocks.first()
    }

    /// The exit (last) block of a region of an operation.
    pub open spec fn exit(self, op: OpId, reg_idx: int) -> BlockId {
        self.regions[self.ops[op].regions[reg_idx]].blocks.last()
    }

    /// The operation that ends the exit block of a region of an operation.
    pub open spec fn exit_op(self, op: OpId, reg_idx: int) -> OpId {
        self.blocks[self.exit(op, reg_idx)].ops.last()
    }

    /// Does the operation have such a region, with at least one block?
    pub open spec fn has_body(self, op: OpId, reg_idx: int) -> bool {
        &&& self.ops.contains_key(op)
        &&& 0 <= reg_idx < self.ops[op].regions.len()
        &&& self.regions[self.ops[op].regions[reg_idx]].blocks.len() > 0
    }

    /// Does the operation have such a region, with an exit block that is not empty?
    pub open spec fn has_exit_op(self, op: OpId, reg_idx: int) -> bool {
        self.has_body(op, reg_idx) && self.blocks[self.exit(op, reg_idx)].ops.len() > 0
    }

    /// The terminator of a block: its last operation, if that is one that ends blocks.
    pub open spec fn terminator(self, block: BlockId) -> Option<OpId> {
        let ops = self.blocks[block].ops;
        if ops.len() > 0 && self.ops[ops.last()].kind.terminates() {
            Some(ops.last())
        } else {
            None
        }
    }

    /// The entry block of a region is its first block, the exit block its last one, and what ends a
    /// region is the last operation of the exit block.
    pub proof fn first_and_last(self, op: OpId, reg_idx: int)
        requires
            self.has_exit_op(op, reg_idx),
        ensures
            ({
                let blocks = self.regions[self.ops[op].regions[reg_idx]].blocks;
                let exit = blocks[blocks.len() - 1];
                let ops = self.blocks[exit].ops;
                &&& self.entry(op, reg_idx) == blocks[0]
                &&& self.exit(op, reg_idx) == exit
                &&& self.exit_op(op, reg_idx) == ops[ops.len() - 1]
            }),
    {
    }

    /// The entry and the exit block of a region are blocks of it.
    pub proof fn entry_exit_in_range(self, op: OpId, reg_idx: int)
        requires
            self.wf(),
            self.has_body(op, reg_idx),
        ensures
            self.regions.contains_key(self.ops[op].regions[reg_idx]),
            self.regions[self.ops[op].regions[reg_idx]].parent == op,
            self.blocks.contains_key(self.entry(op, reg_idx)),
            self.blocks.contains_key(self.exit(op, reg_idx)),
            self.blocks[self.entry(op, reg_idx)].parent == self.ops[op].regions[reg_idx],
            self.blocks[self.exit(op, reg_idx)].parent == self.ops[op].regions[reg_idx],
            self.has_exit_op(op, reg_idx) ==> self.placed(self.exit_op(op, reg_idx))
                && self.ops[self.exit_op(op, reg_idx)].parent == Some(self.exit(op, reg_idx))
                && self.position(self.exit_op(op, reg_idx)) == self.blocks[self.exit(
                op,
                reg_idx,
            )].ops.len() - 1,
    {
        reveal(Ir::wf);
        let r = self.ops[op].regions[reg_idx];
        assert(self.regions.contains_key(r));
        self.block_position_unique(r, 0);
        self.block_position_unique(r, self.regions[r].blocks.len() - 1);
        if self.has_exit_op(op, reg_idx) {
            let b = self.exit(op, reg_idx);
            self.position_unique(b, self.blocks[b].ops.len() - 1);
        }
    }
}

/// An operation that can be yielded to from a [YieldingRegions].
pub trait YieldingOp: Sized {
    /// Is this the kind of such an operation?
    spec fn is_kind(kind: OpKind) -> bool;

    /// The operation.
    spec fn op_id(&self) -> OpId;

    /// Takes an operation for one that yields, if it is of that kind.
    fn from_operation(ctx: &Context, op: OpId) -> (this: Option<Self>)
        requires
            ctx@.ops.contains_key(op),
        ensures
            this is Some <==> Self::is_kind(ctx@.ops[op].kind),
            this is Some ==> this->0.op_id() == op,
    ;

    /// The operation.
    fn get_operation(&self) -> (op: OpId)
        ensures
            op == self.op_id(),
    ;
}

/// Why the regions of an operation do not yield.
#[derive(Debug, Clone, Copy, PartialEq, Eq, Structural)]
pub enum YieldingRegionsVerifyErr {
    RegionEmpty,
    LastOpNotYield,
    NonExitBlockBadTerminator,
}

impl YieldingRegionsVerifyErr {
    /// What is wrong, in words.
    pub open spec fn text(self) -> Seq<char> {
        match self {
            YieldingRegionsVerifyErr::RegionEmpty => "Region is empty"@,
            YieldingRegionsVerifyErr::LastOpNotYield => "Last operation in exit block is not a YieldingOp"@,
            YieldingRegionsVerifyErr::NonExitBlockBadTerminator => "Terminator of a non-exit block must implement BranchOpInterface"@,
        }
    }

    /// Says what is wrong.
    pub fn message(&self) -> (message: &'static str)
        ensures
            message@ == self.text(),
    {
        match self {
            YieldingRegionsVerifyErr::RegionEmpty => "Region is empty",
            YieldingRegionsVerifyErr::LastOpNotYield => "Last operation in exit block is not a YieldingOp",
            YieldingRegionsVerifyErr::NonExitBlockBadTerminator => "Terminator of a non-exit block must implement BranchOpInterface",
        }
    }

    /// Does block `i` of a region end with a terminator that is no branch, without being the
    /// exit block?
    pub open spec fn strays(ir: Ir, region: RegionId, i: int) -> bool {
        let blocks = ir.regions[region].blocks;
        &&& 0 <= i < blocks.len() - 1
        &&& ir.terminator(blocks[i]) is Some
        &&& !ir.ops[ir.terminator(blocks[i])->0].kind.branches()
    }

    /// What is wrong with a region, if anything is. Its exit block is not empty.
    pub open spec fn fault<Y: YieldingOp>(ir: Ir, region: RegionId) -> Option<
        YieldingRegionsVerifyErr,
    > {
        let blocks = ir.regions[region].blocks;
        if blocks.len() == 0 {
            Some(YieldingRegionsVerifyErr::RegionEmpty)
        } else if !Y::is_kind(ir.ops[ir.blocks[blocks.last()].ops.last()].kind) {
            Some(YieldingRegionsVerifyErr::LastOpNotYield)
        } else if exists|i: int| YieldingRegionsVerifyErr::strays(ir, region, i) {
            Some(YieldingRegionsVerifyErr::NonExitBlockBadTerminator)
        } else {
            None
        }
    }

    /// What is wrong with the first region, from region `i` of the operation on, with which
    /// something is wrong.
    pub open spec fn fault_from<Y: YieldingOp>(ir: Ir, op: OpId, i: int) -> Option<
        YieldingRegionsVerifyErr,
    >
        decreases ir.ops[op].regions.len() - i,
    {
        if i < 0 || i >= ir.ops[op].regions.len() {
            None
        } else {
            match YieldingRegionsVerifyErr::fault::<Y>(ir, ir.ops[op].regions[i]) {
                Some(err) => Some(err),
                None => YieldingRegionsVerifyErr::fault_from::<Y>(ir, op, i + 1),
            }
        }
    }

    /// Is nothing wrong with the regions before region `i`?
    pub open spec fn sound_before<Y: YieldingOp>(ir: Ir, op: OpId, i: int) -> bool {
        forall|j: int|
            0 <= j < i ==> YieldingRegionsVerifyErr::fault::<Y>(
                ir,
                #[trigger] ir.ops[op].regions[j],
            ) is None
    }
}

/// An operation each of whose regions:
/// 1. Has an entry (lexicographically first) and an exit (lexicographically last) block.
/// 2. Has its exit block end with a [YieldingOp].
///
/// The entry and exit blocks of a region can be the same block.
pub trait YieldingRegions<Y: YieldingOp>: Sized {
    /// The operation.
    spec fn yielding_op(&self) -> OpId;

    /// The operation.
    fn get_operation(&self) -> (op: OpId)
        ensures
            op == self.yielding_op(),
    ;

    /// Get the `yield` operation ending the `reg_idx`th region.
    fn get_yield(&self, ctx: &Context, reg_idx: usize) -> (y: Y)
        requires
            ctx.wf(),
            ctx@.has_exit_op(self.yielding_op(), reg_idx as int),
            Y::is_kind(ctx@.ops[ctx@.exit_op(self.yielding_op(), reg_idx as int)].kind),
        ensures
            y.op_id() == ctx@.exit_op(self.yielding_op(), reg_idx as int),
            ({
                let region = ctx@.ops[self.yielding_op()].regions[reg_idx as int];
                let blocks = ctx@.regions[region].blocks;
                let ops = ctx@.blocks[blocks[blocks.len() - 1]].ops;
                y.op_id() == ops[ops.len() - 1]
            }),
    {
        proof {
            ctx@.entry_exit_in_range(self.yielding_op(), reg_idx as int);
        }
        let exit_block: BlockId = self.get_exit(ctx, reg_idx);
        let yield_op: OpId = ctx.last_op(exit_block).unwrap();
        Y::from_operation(ctx, yield_op).unwrap()
    }

    /// Get the entry block of the `reg_idx`th region.
    fn get_entry(&self, ctx: &Context, reg_idx: usize) -> (block: BlockId)
        requires
            ctx.wf(),
            ctx@.has_body(self.yielding_op(), reg_idx as int),
        ensures
            block == ctx@.entry(self.yielding_op(), reg_idx as int),
            block == ctx@.regions[ctx@.ops[self.yielding_op()].regions[reg_idx as int]].blocks[0],
    {
        proof {
            ctx@.entry_exit_in_range(self.yielding_op(), reg_idx as int);
        }
        let region: RegionId = ctx.regions(self.get_operation())[reg_idx];
        ctx.blocks(region)[0]
    }

    /// Get the exit block of the `reg_idx`th region.
    fn get_exit(&self, ctx: &Context, reg_idx: usize) -> (block: BlockId)
        requires
            ctx.wf(),
            ctx@.has_body(self.yielding_op(), reg_idx as int),
        ensures
            block == ctx@.exit(self.yielding_op(), reg_idx as int),
            ({
                let region = ctx@.ops[self.yielding_op()].regions[reg_idx as int];
                let blocks = ctx@.regions[region].blocks;
                block == blocks[blocks.len() - 1]
            }),
    {
        proof {
            ctx@.entry_exit_in_range(self.yielding_op(), reg_idx as int);
        }
        let region: RegionId = ctx.regions(self.get_operation())[reg_idx];
        let blocks = ctx.blocks(region);
        blocks[blocks.len() - 1]
    }

    /// Checks that the `reg_idx`th region of the operation yields. If it has blocks, its exit
    /// block must not be empty.
    fn verify_region(&self, ctx: &Context, reg_idx: usize) -> (result: Result<
        (),
        YieldingRegionsVerifyErr,
    >)
        requires
            ctx.wf(),
            ctx@.ops.contains_key(self.yielding_op()),
            reg_idx < ctx@.ops[self.yielding_op()].regions.len(),
            ctx@.has_body(self.yielding_op(), reg_idx as int) ==> ctx@.has_exit_op(
                self.yielding_op(),
                reg_idx as int,
            ),
        ensures
            result == (match YieldingRegionsVerifyErr::fault::<Y>(
                ctx@,
                ctx@.ops[self.yielding_op()].regions[reg_idx as int],
            ) {
                None => Ok(()),
                Some(err) => Err(err),
            }),
    {
        let ghost ir = ctx@;
        let op: OpId = self.get_operation();
        let region: RegionId = ctx.regions(op)[reg_idx];
        proof {
            reveal(Ir::wf);
            assert(ir.regions.contains_key(ir.ops[op].regions[reg_idx as int]));
        }
        let blocks = ctx.blocks(region);
        if blocks.len() == 0 {
            return Err(YieldingRegionsVerifyErr::RegionEmpty);
        }
        proof {
            ir.entry_exit_in_range(op, reg_idx as int);
        }
        let exit_block: BlockId = blocks[blocks.len() - 1];
        let yield_op: OpId = ctx.last_op(exit_block).unwrap();
        if Y::from_operation(ctx, yield_op).is_none() {
            return Err(YieldingRegionsVerifyErr::LastOpNotYield);
        }
        // Every non-exit block's terminator must be a branch, so that control flow inside
        // this region is always well understood.
        let num_non_exit: usize = blocks.len() - 1;
        for i in 0..num_non_exit
            invariant
                ctx.wf(),
                num_non_exit == blocks@.len() - 1,
                ir == ctx@,
                ir.regions.contains_key(region),
                blocks@ == ir.regions[region].blocks,
                ir.blocks[blocks@.last()].ops.len() > 0,
                Y::is_kind(ir.ops[ir.blocks[blocks@.last()].ops.last()].kind),
                op == self.yielding_op(),
                region == ir.ops[op].regions[reg_idx as int],
                forall|k: int| 0 <= k < i ==> !YieldingRegionsVerifyErr::strays(ir, region, k),
        {
            let block: BlockId = blocks[i];
            proof {
                reveal(Ir::wf);
                assert(ir.blocks.contains_key(ir.regions[region].blocks[i as int]));
            }
            match ctx.last_op(block) {
                Some(last) => {
                    let ghost n = ir.blocks[block].ops.len() - 1;
                    assert(ir.ops.contains_key(ir.blocks[block].ops[n]));
                    let kind: OpKind = ctx.kind(last);
                    if kind.is_terminator() && !kind.is_branch() {
                        assert(YieldingRegionsVerifyErr::strays(ir, region, i as int));
                        return Err(YieldingRegionsVerifyErr::NonExitBlockBadTerminator);
                    }
                },
                None => {},
            }
        }
        Ok(())
    }

    /// Checks that every region of the operation yields. An exit block that is reached by the
    /// check must not be empty.
    fn verify(&self, ctx: &Context) -> (result: Result<(), YieldingRegionsVerifyErr>)
        requires
            ctx.wf(),
            ctx@.ops.contains_key(self.yielding_op()),
            forall|i: int|
                #![trigger ctx@.has_exit_op(self.yielding_op(), i)]
                ctx@.has_body(self.yielding_op(), i)
                    && YieldingRegionsVerifyErr::sound_before::<Y>(ctx@, self.yielding_op(), i)
                    ==> ctx@.has_exit_op(self.yielding_op(), i),
        ensures
            result == (match YieldingRegionsVerifyErr::fault_from::<Y>(
                ctx@,
                self.yielding_op(),
                0,
            ) {
                None => Ok(()),
                Some(err) => Err(err),
            }),
    {
        let ghost ir = ctx@;
        let op: OpId = self.get_operation();
        let num_regions: usize = ctx.regions(op).len();
        for reg_idx in 0..num_regions
            invariant
                ctx.wf(),
                ir == ctx@,
                op == self.yielding_op(),
                ir.ops.contains_key(op),
                num_regions == ir.ops[op].regions.len(),
                forall|i: int|
                    #![trigger ir.has_exit_op(op, i)]
                    ir.has_body(op, i) && YieldingRegionsVerifyErr::sound_before::<Y>(ir, op, i)
                        ==> ir.has_exit_op(op, i),
                YieldingRegionsVerifyErr::sound_before::<Y>(ir, op, reg_idx as int),
                YieldingRegionsVerifyErr::fault_from::<Y>(ir, op, 0)
                    == YieldingRegionsVerifyErr::fault_from::<Y>(ir, op, reg_idx as int),
        {
            assert(ir.has_body(op, reg_idx as int) ==> ir.has_exit_op(op, reg_idx as int));
            match self.verify_region(ctx, reg_idx) {
                Ok(()) => {},
                Err(err) => {
                    return Err(err);
                },
            }
        }
        Ok(())
    }
}

} // verus!
