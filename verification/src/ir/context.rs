//! The intermediate representation itself: storage, reading, and elementary changes.

use crate::ir::edit::Edit;
use crate::ir::model::{BlockView, Def, Ir, OpView, RegionView};
use crate::ir::types::{
    BlockId, BlockInsertionPoint, Location, OpId, OpInsertionPoint, OpKind, RegionId, Type, Value,
};
use vstd::prelude::*;

verus! {

/// A result of an operation, or an argument of a block, as it is stored.
struct Definition {
    ty: Type,
    name: Option<String>,
}

/// An operation as it is stored.
struct OpData {
    live: bool,
    kind: OpKind,
    results: Vec<Definition>,
    operands: Vec<Value>,
    successors: Vec<BlockId>,
    regions: Vec<RegionId>,
    segments: Vec<u32>,
    parent: Option<BlockId>,
    loc: Location,
}

/// A block as it is stored.
struct BlockData {
    label: Option<String>,
    args: Vec<Definition>,
    ops: Vec<OpId>,
    parent: RegionId,
    loc: Location,
}

/// A region as it is stored.
struct RegionData {
    live: bool,
    blocks: Vec<BlockId>,
    parent: OpId,
}

/// The intermediate representation. Every change to it is also noted in a journal.
pub struct Context {
    ops: Vec<OpData>,
    blocks: Vec<BlockData>,
    regions: Vec<RegionData>,
    journal: Vec<Edit>,
}

impl View for Definition {
    type V = Def;

    closed spec fn view(&self) -> Def {
        Def { ty: self.ty, name: Edit::text(self.name) }
    }
}

impl View for OpData {
    type V = OpView;

    closed spec fn view(&self) -> OpView {
        OpView {
            kind: self.kind,
            results: self.results@.map_values(|d: Definition| d@),
            operands: self.operands@,
            successors: self.successors@,
            regions: self.regions@,
            segments: self.segments@,
            parent: self.parent,
            loc: self.loc,
        }
    }
}

impl View for BlockData {
    type V = BlockView;

    closed spec fn view(&self) -> BlockView {
        BlockView {
            label: Edit::text(self.label),
            args: self.args@.map_values(|d: Definition| d@),
            ops: self.ops@,
            parent: self.parent,
            loc: self.loc,
        }
    }
}

impl View for RegionData {
    type V = RegionView;

    closed spec fn view(&self) -> RegionView {
        RegionView { blocks: self.blocks@, parent: self.parent }
    }
}

impl View for Context {
    type V = Ir;

    closed spec fn view(&self) -> Ir {
        Ir {
            ops: Map::new(
                |o: OpId| o < self.ops@.len() && self.ops@[o as int].live,
                |o: OpId| self.ops@[o as int]@,
            ),
            blocks: Map::new(
                |b: BlockId| b < self.blocks@.len(),
                |b: BlockId| self.blocks@[b as int]@,
            ),
            regions: Map::new(
                |r: RegionId| r < self.regions@.len() && self.regions@[r as int].live,
                |r: RegionId| self.regions@[r as int]@,
            ),
            next_op: self.ops@.len(),
            next_block: self.blocks@.len(),
            next_region: self.regions@.len(),
        }
    }
}

impl Context {
    /// The changes made so far.
    pub closed spec fn journal(&self) -> Seq<Edit> {
        self.journal@
    }

    /// Do the changes made so far begin with `earlier`?
    pub open spec fn extends(&self, earlier: Seq<Edit>) -> bool {
        &&& earlier.len() <= self.journal().len()
        &&& forall|i: int| 0 <= i < earlier.len() ==> #[trigger] self.journal()[i] == earlier[i]
    }

    /// What holds of a context at all times: what it holds is well formed, and the journal
    /// tells how it came about.
    pub open spec fn wf(&self) -> bool {
        &&& self@.wf()
        &&& Edit::replay(Ir::empty(), self.journal()) == self@
    }

    /// What has been done to a context since an earlier time can be done again: replaying, on
    /// what it held then, the changes noted since gives what it holds now.
    pub proof fn changes_can_be_replayed(&self, earlier: &Context)
        requires
            self.wf(),
            earlier.wf(),
            self.extends(earlier.journal()),
        ensures
            Edit::replay(earlier@, self.journal().skip(earlier.journal().len() as int)) == self@,
    {
        let since = self.journal().skip(earlier.journal().len() as int);
        assert(earlier.journal() + since =~= self.journal());
        Edit::replay_concat(Ir::empty(), earlier.journal(), since);
    }

    /// Makes a context that holds nothing.
    pub fn new() -> (ctx: Context)
        ensures
            ctx.wf(),
            ctx@ == Ir::empty(),
            ctx.journal() == Seq::<Edit>::empty(),
    {
        let ctx = Context {
            ops: Vec::new(),
            blocks: Vec::new(),
            regions: Vec::new(),
            journal: Vec::new(),
        };
        proof {
            reveal(Ir::wf);
            assert(ctx@ =~= Ir::empty());
        }
        ctx
    }

    /// Notes a change in the journal.
    fn note(&mut self, edit: Edit, Ghost(before): Ghost<Ir>)
        requires
            Edit::replay(Ir::empty(), old(self).journal()) == before,
            old(self)@ == edit.apply(before),
            old(self)@.wf(),
        ensures
            final(self).wf(),
            final(self)@ == old(self)@,
            final(self).journal() == old(self).journal().push(edit),
    {
        let ghost edits = self.journal@;
        self.journal.push(edit);
        proof {
            assert(self.journal@.drop_last() =~= edits);
            assert(self@ =~= old(self)@);
        }
    }

    /// Makes an operation that is in no block, with empty regions.
    pub fn create_op(
        &mut self,
        kind: OpKind,
        result_types: Vec<Type>,
        operands: Vec<Value>,
        successors: Vec<BlockId>,
        num_regions: usize,
        segments: Vec<u32>,
    ) -> (op: OpId)
        requires
            old(self).wf(),
            old(self)@.has_values(operands@),
            old(self)@.has_blocks(successors@),
        ensures
            final(self).wf(),
            final(self).extends(old(self).journal()),
            op == old(self)@.op_at(0),
            final(self)@ == old(self)@.created_op(
                kind,
                result_types@,
                operands@,
                successors@,
                num_regions as nat,
                segments@,
            ),
    {
        let ghost before = self@;
        proof {
            reveal(Ir::wf);
        }
        let op: OpId = self.ops.len();
        let results = unnamed_definitions(&result_types);
        let mut regions: Vec<RegionId> = Vec::new();
        let ghost old_regions = self.regions@;
        for i in 0..num_regions
            invariant
                self.ops == old(self).ops,
                self.blocks == old(self).blocks,
                self.journal == old(self).journal,
                old_regions == old(self).regions@,
                regions@.len() == i,
                self.regions@.len() == old_regions.len() + i,
                forall|k: int| 0 <= k < i ==> #[trigger] regions@[k] == old_regions.len() + k,
                forall|k: int|
                    0 <= k < old_regions.len() ==> #[trigger] self.regions@[k] == old_regions[k],
                forall|k: int|
                    old_regions.len() <= k < self.regions@.len() ==> (#[trigger] self.regions@[k]).live
                        && self.regions@[k]@ == (RegionView { blocks: Seq::empty(), parent: op }),
        {
            regions.push(self.regions.len());
            let region = RegionData { live: true, blocks: Vec::new(), parent: op };
            assert(region@ =~= (RegionView { blocks: Seq::empty(), parent: op }));
            self.regions.push(region);
        }
        let data = OpData {
            live: true,
            kind,
            results,
            operands: copied(&operands),
            successors: copied(&successors),
            regions,
            segments: copied(&segments),
            parent: None,
            loc: Location::Unknown,
        };
        let ghost d = data@;
        self.ops.push(data);
        let edit = Edit::CreateOp {
            kind,
            result_types,
            operands,
            successors,
            num_regions,
            segments,
        };
        proof {
            assert(self.ops.len() == before.next_op + 1);
            assert(self.regions.len() == before.next_region + num_regions);
            let after = edit.apply(before);
            assert(d =~= after.ops[op]) by {
                assert(d.regions =~= after.ops[op].regions);
                assert(d.results =~= after.ops[op].results);
            }
            assert(self@.ops =~= after.ops);
            assert(self@.blocks =~= after.blocks);
            assert(self@.regions =~= after.regions);
            before.created_op_wf(
                kind,
                result_types@,
                operands@,
                successors@,
                num_regions as nat,
                segments@,
            );
        }
        self.note(edit, Ghost(before));
        op
    }

    /// Gives an operation one more region, which is empty.
    pub fn create_region(&mut self, op: OpId) -> (region: RegionId)
        requires
            old(self).wf(),
            old(self)@.ops.contains_key(op),
        ensures
            final(self).wf(),
            final(self).extends(old(self).journal()),
            region == old(self)@.region_at(0),
            final(self)@ == old(self)@.created_region(op),
    {
        let ghost before = self@;
        proof {
            reveal(Ir::wf);
        }
        let region: RegionId = self.regions.len();
        let data = RegionData { live: true, blocks: Vec::new(), parent: op };
        self.regions.push(data);
        self.ops[op].regions.push(region);
        let edit = Edit::CreateRegion { op };
        proof {
            assert(self.regions.len() == before.next_region + 1);
            let after = edit.apply(before);
            assert(self.regions@[region as int]@ =~= after.regions[region]);
            assert(self.ops@[op as int]@ =~= after.ops[op]);
            assert(self@.ops =~= after.ops);
            assert(self@.blocks =~= after.blocks);
            assert(self@.regions =~= after.regions);
            before.created_region_wf(op);
        }
        self.note(edit, Ghost(before));
        region
    }

    /// Makes an empty block and inserts it.
    pub fn create_block(
        &mut self,
        at: BlockInsertionPoint,
        label: Option<String>,
        arg_types: Vec<Type>,
    ) -> (block: BlockId)
        requires
            old(self).wf(),
            old(self)@.block_point_valid(at),
        ensures
            final(self).wf(),
            final(self).extends(old(self).journal()),
            block == old(self)@.block_at(0),
            final(self)@ == old(self)@.created_block(at, Edit::text(label), arg_types@),
    {
        let ghost before = self@;
        proof {
            reveal(Ir::wf);
            before.block_point_in_range(at);
        }
        let block: BlockId = self.blocks.len();
        let region: RegionId = match at {
            BlockInsertionPoint::AtRegionStart(r) => r,
            BlockInsertionPoint::AtRegionEnd(r) => r,
            BlockInsertionPoint::BeforeBlock(b) => self.blocks[b].parent,
            BlockInsertionPoint::AfterBlock(b) => self.blocks[b].parent,
        };
        let index: usize = match at {
            BlockInsertionPoint::AtRegionStart(_) => 0,
            BlockInsertionPoint::AtRegionEnd(r) => self.regions[r].blocks.len(),
            BlockInsertionPoint::BeforeBlock(b) => self.position_of_block(b),
            BlockInsertionPoint::AfterBlock(b) => self.position_of_block(b) + 1,
        };
        let data = BlockData {
            label: copied_name(&label),
            args: unnamed_definitions(&arg_types),
            ops: Vec::new(),
            parent: region,
            loc: Location::Unknown,
        };
        let ghost d = data@;
        self.blocks.push(data);
        self.regions[region].blocks.insert(index, block);
        let edit = Edit::CreateBlock { point: at, label, arg_types };
        proof {
            assert(self.blocks.len() == before.next_block + 1);
            let after = edit.apply(before);
            assert(d =~= after.blocks[block]);
            assert(self@.ops =~= after.ops);
            assert(self@.blocks =~= after.blocks);
            assert(self.regions@[region as int]@ =~= after.regions[region]);
            assert(self@.regions =~= after.regions);
            before.created_block_wf(at, Edit::text(label), arg_types@);
        }
        self.note(edit, Ghost(before));
        block
    }

    /// The position of a block in the region that holds it.
    pub fn position_of_block(&self, block: BlockId) -> (i: usize)
        requires
            self@.wf(),
            self@.blocks.contains_key(block),
        ensures
            i == self@.block_position(block),
            i < self@.regions[self@.blocks[block].parent].blocks.len() <= usize::MAX,
    {
        let region: RegionId = self.blocks[block].parent;
        let ghost blocks = self@.regions[region].blocks;
        proof {
            reveal(Ir::wf);
            self@.block_position_in_range(block);
        }
        let len: usize = self.regions[region].blocks.len();
        let mut i: usize = 0;
        while self.regions[region].blocks[i] != block
            invariant
                len == blocks.len(),
                self@.wf(),
                self@.blocks.contains_key(block),
                region == self@.blocks[block].parent,
                self@.regions.contains_key(region),
                blocks == self@.regions[region].blocks,
                0 <= i <= self@.block_position(block) < blocks.len(),
                blocks[self@.block_position(block)] == block,
            decreases blocks.len() - i,
        {
            i = i + 1;
        }
        proof {
            self@.block_position_unique(region, i as int);
        }
        i
    }

    /// The position of an operation in the block that holds it.
    pub fn position_of(&self, op: OpId) -> (i: usize)
        requires
            self@.wf(),
            self@.placed(op),
        ensures
            i == self@.position(op),
            i < self@.blocks[self@.ops[op].parent->0].ops.len() <= usize::MAX,
    {
        proof {
            reveal(Ir::wf);
            self@.position_in_range(op);
        }
        let block: BlockId = self.ops[op].parent.unwrap();
        let ghost ops = self@.blocks[block].ops;
        let len: usize = self.blocks[block].ops.len();
        let mut i: usize = 0;
        while self.blocks[block].ops[i] != op
            invariant
                len == ops.len(),
                self@.wf(),
                self@.placed(op),
                self@.ops[op].parent == Some(block),
                self@.blocks.contains_key(block),
                ops == self@.blocks[block].ops,
                0 <= i <= self@.position(op) < ops.len(),
                ops[self@.position(op)] == op,
            decreases ops.len() - i,
        {
            i = i + 1;
        }
        proof {
            self@.position_unique(block, i as int);
        }
        i
    }

    /// Inserts an operation that is in no block into one.
    pub fn insert_op(&mut self, op: OpId, at: OpInsertionPoint)
        requires
            old(self).wf(),
            old(self)@.ops.contains_key(op),
            old(self)@.ops[op].parent is None,
            old(self)@.op_point_valid(at),
        ensures
            final(self).wf(),
            final(self).extends(old(self).journal()),
            final(self)@ == old(self)@.inserted_op(op, at),
    {
        let ghost before = self@;
        proof {
            reveal(Ir::wf);
            before.op_point_in_range(at);
        }
        let block: BlockId = match at {
            OpInsertionPoint::AtBlockStart(b) => b,
            OpInsertionPoint::AtBlockEnd(b) => b,
            OpInsertionPoint::BeforeOperation(o) => self.ops[o].parent.unwrap(),
            OpInsertionPoint::AfterOperation(o) => self.ops[o].parent.unwrap(),
            OpInsertionPoint::Unset => 0,
        };
        let index: usize = match at {
            OpInsertionPoint::AtBlockStart(_) => 0,
            OpInsertionPoint::AtBlockEnd(b) => self.blocks[b].ops.len(),
            OpInsertionPoint::BeforeOperation(o) => self.position_of(o),
            OpInsertionPoint::AfterOperation(o) => self.position_of(o) + 1,
            OpInsertionPoint::Unset => 0,
        };
        self.blocks[block].ops.insert(index, op);
        self.ops[op].parent = Some(block);
        let edit = Edit::InsertOp { op, at };
        proof {
            let after = edit.apply(before);
            assert(self.ops@[op as int]@ =~= after.ops[op]);
            assert(self.blocks@[block as int]@ =~= after.blocks[block]);
            assert(self@.ops =~= after.ops);
            assert(self@.blocks =~= after.blocks);
            assert(self@.regions =~= after.regions);
            before.inserted_op_wf(op, at);
        }
        self.note(edit, Ghost(before));
    }

    /// Moves an operation, and what follows it in its block, to the end of another block.
    pub fn move_tail(&mut self, first: OpId, dest: BlockId)
        requires
            old(self).wf(),
            old(self)@.placed(first),
            old(self)@.blocks.contains_key(dest),
            old(self)@.ops[first].parent != Some(dest),
        ensures
            final(self).wf(),
            final(self).extends(old(self).journal()),
            final(self)@ == old(self)@.moved_tail(first, dest),
    {
        let ghost before = self@;
        proof {
            reveal(Ir::wf);
            before.position_in_range(first);
        }
        let block: BlockId = self.ops[first].parent.unwrap();
        let index: usize = self.position_of(first);
        let mut moved: Vec<OpId> = self.blocks[block].ops.split_off(index);
        let ghost tail = moved@;
        assert(tail =~= before.blocks[block].ops.skip(index as int));
        assert forall|k: int| 0 <= k < tail.len() implies before.ops.contains_key(
            #[trigger] tail[k],
        ) by {
            assert(before.blocks[block].ops[index + k] == tail[k]);
        }
        reparent_ops(&mut self.ops, &moved, dest);
        self.blocks[dest].ops.append(&mut moved);
        let edit = Edit::MoveTail { first, dest };
        proof {
            let after = edit.apply(before);
            assert forall|o: OpId| #[trigger] before.ops.contains_key(o) implies self.ops@[o as int]@
                == after.ops[o] by {
                assert(self.ops@[o as int]@ =~= after.ops[o]);
            }
            assert(self.blocks@[block as int]@ =~= after.blocks[block]);
            assert(self.blocks@[dest as int]@ =~= after.blocks[dest]);
            assert(self@.ops =~= after.ops);
            assert(self@.blocks =~= after.blocks);
            assert(self@.regions =~= after.regions);
            before.moved_tail_wf(first, dest);
        }
        self.note(edit, Ghost(before));
    }

    /// Moves the blocks of region `src`, in order, behind block `after` of another region.
    pub fn inline_region(&mut self, src: RegionId, after: BlockId)
        requires
            old(self).wf(),
            old(self)@.regions.contains_key(src),
            old(self)@.blocks.contains_key(after),
            old(self)@.blocks[after].parent != src,
        ensures
            final(self).wf(),
            final(self).extends(old(self).journal()),
            final(self)@ == old(self)@.inlined_region(src, after),
    {
        let ghost before = self@;
        proof {
            reveal(Ir::wf);
            before.block_position_in_range(after);
        }
        let dest: RegionId = self.blocks[after].parent;
        let index: usize = self.position_of_block(after) + 1;
        let mut moved: Vec<BlockId> = self.regions[src].blocks.split_off(0);
        let mut rest: Vec<BlockId> = self.regions[dest].blocks.split_off(index);
        assert(moved@ =~= before.regions[src].blocks);
        assert(rest@ =~= before.regions[dest].blocks.skip(index as int));
        assert forall|k: int| 0 <= k < moved@.len() implies before.blocks.contains_key(
            #[trigger] moved@[k],
        ) by {
            assert(before.regions[src].blocks[k] == moved@[k]);
        }
        reparent_blocks(&mut self.blocks, &moved, dest);
        let ghost shifted = moved@;
        self.regions[dest].blocks.append(&mut moved);
        self.regions[dest].blocks.append(&mut rest);
        let edit = Edit::InlineRegion { src, after };
        proof {
            let after_edit = edit.apply(before);
            assert forall|b: BlockId| #[trigger] before.blocks.contains_key(b) implies self.blocks@[b as int]@
                == after_edit.blocks[b] by {
                assert(self.blocks@[b as int]@ =~= after_edit.blocks[b]);
            }
            assert(self.regions@[src as int]@ =~= after_edit.regions[src]);
            assert(self.regions@[dest as int]@ =~= after_edit.regions[dest]);
            assert(self@.ops =~= after_edit.ops);
            assert(self@.blocks =~= after_edit.blocks);
            assert(self@.regions =~= after_edit.regions);
            before.inlined_region_wf(src, after);
        }
        self.note(edit, Ghost(before));
    }

    /// Erases an operation whose results nothing uses and whose regions are empty.
    pub fn erase_op(&mut self, op: OpId)
        requires
            old(self).wf(),
            old(self)@.ops.contains_key(op),
            old(self)@.unused(op),
            forall|i: int|
                0 <= i < old(self)@.ops[op].regions.len()
                    ==> old(self)@.regions[#[trigger] old(self)@.ops[op].regions[i]].blocks.len()
                    == 0,
        ensures
            final(self).wf(),
            final(self).extends(old(self).journal()),
            final(self)@ == old(self)@.erased_op(op),
    {
        let ghost before = self@;
        proof {
            reveal(Ir::wf);
        }
        let gone: Vec<RegionId> = copied(&self.ops[op].regions);
        assert forall|k: int| 0 <= k < gone@.len() implies before.regions.contains_key(
            #[trigger] gone@[k],
        ) by {
            assert(before.ops[op].regions[k] == gone@[k]);
        }
        match self.ops[op].parent {
            Some(block) => {
                proof {
                    before.position_in_range(op);
                }
                let index: usize = self.position_of(op);
                self.blocks[block].ops.remove(index);
            },
            None => {},
        }
        drop_regions(&mut self.regions, &gone);
        self.ops[op].live = false;
        let edit = Edit::EraseOp { op };
        proof {
            let after = edit.apply(before);
            if before.ops[op].parent is Some {
                let block = before.ops[op].parent->0;
                assert(self.blocks@[block as int]@ =~= after.blocks[block]);
            }
            assert(self@.ops =~= after.ops);
            assert(self@.blocks =~= after.blocks);
            assert(forall|r: RegionId| gone@.contains(r) == before.ops[op].regions.to_set().contains(r));
            assert(self@.regions =~= after.regions);
            before.erased_op_wf(op);
        }
        self.note(edit, Ghost(before));
    }

    /// Makes every use of a result of `op` a use of an argument of `block`, from the argument
    /// at `first` on, and hands the names of the results to those arguments that have none.
    pub fn replace_results(&mut self, op: OpId, block: BlockId, first: usize)
        requires
            old(self).wf(),
            old(self)@.ops.contains_key(op),
            old(self)@.blocks.contains_key(block),
            first + old(self)@.ops[op].results.len() <= old(self)@.blocks[block].args.len(),
        ensures
            final(self).wf(),
            final(self).extends(old(self).journal()),
            final(self)@ == old(self)@.replaced_results(op, block, first as int),
            final(self)@.unused(op),
    {
        let ghost before = self@;
        proof {
            reveal(Ir::wf);
        }
        let num_results: usize = self.ops[op].results.len();
        let num_args: usize = self.blocks[block].args.len();
        assert(num_results == before.ops[op].results.len());
        assert(num_args == before.blocks[block].args.len());
        assert forall|o: OpId, i: int|
            #![trigger self.ops@[o as int].operands@[i]]
            o < self.ops@.len() && self.ops@[o as int].live && 0 <= i
                < self.ops@[o as int].operands@.len() implies in_range_after(
self.ops@[o as int].operands@[i], op, first) by {
            assert(before.ops.contains_key(o));
            assert(before.ops[o].operands[i] == self.ops@[o as int].operands@[i]);
            assert(before.has_value(before.ops[o].operands[i]));
        }
        let ghost stored_blocks = self.blocks@;
        let ghost results = self.ops@[op as int].results@;
        for i in 0..num_results
            invariant
                self.ops == old(self).ops,
                self.regions == old(self).regions,
                self.journal == old(self).journal,
                op < self.ops@.len(),
                block < stored_blocks.len(),
                results == self.ops@[op as int].results@,
                num_results == results.len(),
                stored_blocks == old(self).blocks@,
                self.blocks@.len() == stored_blocks.len(),
                num_args == stored_blocks[block as int].args@.len(),
                first + num_results <= num_args,
                self.blocks@[block as int].args@.len() == stored_blocks[block as int].args@.len(),
                self.blocks@[block as int].label == stored_blocks[block as int].label,
                self.blocks@[block as int].ops == stored_blocks[block as int].ops,
                self.blocks@[block as int].parent == stored_blocks[block as int].parent,
                self.blocks@[block as int].loc == stored_blocks[block as int].loc,
                forall|b: int|
                    0 <= b < stored_blocks.len() && b != block ==> #[trigger] self.blocks@[b]
                        == stored_blocks[b],
                forall|k: int|
                    0 <= k < stored_blocks[block as int].args@.len() ==> (
                    #[trigger] self.blocks@[block as int].args@[k])@ == (if first <= k < first + i
                        && stored_blocks[block as int].args@[k].name is None {
                        Def {
                            name: results[k - first]@.name,
                            ..stored_blocks[block as int].args@[k]@
                        }
                    } else {
                        stored_blocks[block as int].args@[k]@
                    }),
        {
            let unnamed: bool = match &self.blocks[block].args[first + i].name {
                Some(_) => false,
                None => true,
            };
            assert(self.blocks@[block as int].args@[first + i]@
                == stored_blocks[block as int].args@[first + i]@);
            if unnamed {
                let name = copied_name(&self.ops[op].results[i].name);
                self.blocks[block].args[first + i].name = name;
            }
        }
        substitute_operands(&mut self.ops, op, block, first);
        let edit = Edit::ReplaceResults { op, block, first_arg: first };
        proof {
            let after = edit.apply(before);
            assert forall|o: OpId| #[trigger] before.ops.contains_key(o) implies self.ops@[o as int]@
                == after.ops[o] by {
                assert(self.ops@[o as int]@ =~= after.ops[o]);
            }
            assert(self.blocks@[block as int]@ =~= after.blocks[block]) by {
                assert(self.blocks@[block as int]@.args =~= after.blocks[block].args);
            }
            assert(self@.ops =~= after.ops);
            assert(self@.blocks =~= after.blocks);
            assert(self@.regions =~= after.regions);
            before.replaced_results_wf(op, block, first as int);
        }
        self.note(edit, Ghost(before));
    }

    /// Gives an argument of a block another type.
    pub fn retype_argument(&mut self, block: BlockId, idx: usize, ty: Type)
        requires
            old(self).wf(),
            old(self)@.blocks.contains_key(block),
            idx < old(self)@.blocks[block].args.len(),
        ensures
            final(self).wf(),
            final(self).extends(old(self).journal()),
            final(self)@ == old(self)@.retyped_argument(block, idx as int, ty),
    {
        let ghost before = self@;
        proof {
            reveal(Ir::wf);
        }
        self.blocks[block].args[idx].ty = ty;
        let edit = Edit::RetypeArgument { block, idx, ty };
        proof {
            let after = edit.apply(before);
            assert(self.blocks@[block as int]@ =~= after.blocks[block]);
            assert(self@.ops =~= after.ops);
            assert(self@.blocks =~= after.blocks);
            assert(self@.regions =~= after.regions);
            assert(after.blocks.dom() =~= before.blocks.dom());
            after.annotated_wf(before);
        }
        self.note(edit, Ghost(before));
    }

    /// Names an argument of a block.
    pub fn name_argument(&mut self, block: BlockId, idx: usize, name: String)
        requires
            old(self).wf(),
            old(self)@.blocks.contains_key(block),
            idx < old(self)@.blocks[block].args.len(),
        ensures
            final(self).wf(),
            final(self).extends(old(self).journal()),
            final(self)@ == old(self)@.named_argument(block, idx as int, name@),
    {
        let ghost before = self@;
        proof {
            reveal(Ir::wf);
        }
        self.blocks[block].args[idx].name = Some(name.clone());
        let edit = Edit::NameArgument { block, idx, name };
        proof {
            let after = edit.apply(before);
            assert(self.blocks@[block as int]@ =~= after.blocks[block]);
            assert(self@.ops =~= after.ops);
            assert(self@.blocks =~= after.blocks);
            assert(self@.regions =~= after.regions);
            assert(after.blocks.dom() =~= before.blocks.dom());
            after.annotated_wf(before);
        }
        self.note(edit, Ghost(before));
    }

    /// Names a result of an operation.
    pub fn name_result(&mut self, op: OpId, idx: usize, name: String)
        requires
            old(self).wf(),
            old(self)@.ops.contains_key(op),
            idx < old(self)@.ops[op].results.len(),
        ensures
            final(self).wf(),
            final(self).extends(old(self).journal()),
            final(self)@ == old(self)@.named_result(op, idx as int, name@),
    {
        let ghost before = self@;
        proof {
            reveal(Ir::wf);
        }
        self.ops[op].results[idx].name = Some(name.clone());
        let edit = Edit::NameResult { op, idx, name };
        proof {
            let after = edit.apply(before);
            assert(self.ops@[op as int]@ =~= after.ops[op]);
            assert(self@.ops =~= after.ops);
            assert(self@.blocks =~= after.blocks);
            assert(self@.regions =~= after.regions);
            assert(after.ops.dom() =~= before.ops.dom());
            after.annotated_wf(before);
        }
        self.note(edit, Ghost(before));
    }

    /// Gives a block a location.
    pub fn locate_block(&mut self, block: BlockId, loc: Location)
        requires
            old(self).wf(),
            old(self)@.blocks.contains_key(block),
        ensures
            final(self).wf(),
            final(self).extends(old(self).journal()),
            final(self)@ == old(self)@.located_block(block, loc),
    {
        let ghost before = self@;
        proof {
            reveal(Ir::wf);
        }
        self.blocks[block].loc = loc;
        let edit = Edit::LocateBlock { block, loc };
        proof {
            let after = edit.apply(before);
            assert(self.blocks@[block as int]@ =~= after.blocks[block]);
            assert(self@.ops =~= after.ops);
            assert(self@.blocks =~= after.blocks);
            assert(self@.regions =~= after.regions);
            assert(after.blocks.dom() =~= before.blocks.dom());
            after.annotated_wf(before);
        }
        self.note(edit, Ghost(before));
    }

    /// Gives an operation a location.
    pub fn locate_op(&mut self, op: OpId, loc: Location)
        requires
            old(self).wf(),
            old(self)@.ops.contains_key(op),
        ensures
            final(self).wf(),
            final(self).extends(old(self).journal()),
            final(self)@ == old(self)@.located_op(op, loc),
    {
        let ghost before = self@;
        proof {
            reveal(Ir::wf);
        }
        self.ops[op].loc = loc;
        let edit = Edit::LocateOp { op, loc };
        proof {
            let after = edit.apply(before);
            assert(self.ops@[op as int]@ =~= after.ops[op]);
            assert(self@.ops =~= after.ops);
            assert(self@.blocks =~= after.blocks);
            assert(self@.regions =~= after.regions);
            assert(after.ops.dom() =~= before.ops.dom());
            after.annotated_wf(before);
        }
        self.note(edit, Ghost(before));
    }

    /// Gives an operation other operands, in groups of other sizes.
    pub fn set_operands(&mut self, op: OpId, operands: Vec<Value>, segments: Vec<u32>)
        requires
            old(self).wf(),
            old(self)@.ops.contains_key(op),
            old(self)@.has_values(operands@),
        ensures
            final(self).wf(),
            final(self).extends(old(self).journal()),
            final(self)@ == old(self)@.set_operands(op, operands@, segments@),
    {
        let ghost before = self@;
        proof {
            reveal(Ir::wf);
        }
        self.ops[op].operands = copied(&operands);
        self.ops[op].segments = copied(&segments);
        let edit = Edit::SetOperands { op, operands, segments };
        proof {
            let after = edit.apply(before);
            assert(self.ops@[op as int]@ =~= after.ops[op]);
            assert(self@.ops =~= after.ops);
            assert(self@.blocks =~= after.blocks);
            assert(self@.regions =~= after.regions);
            before.set_operands_wf(op, operands@, segments@);
        }
        self.note(edit, Ghost(before));
    }
}

/// Reading.
impl Context {
    /// Is there an operation of this identifier?
    pub fn has_op(&self, op: OpId) -> (b: bool)
        ensures
            b == self@.ops.contains_key(op),
    {
        op < self.ops.len() && self.ops[op].live
    }

    /// Is there a block of this identifier?
    pub fn has_block(&self, block: BlockId) -> (b: bool)
        ensures
            b == self@.blocks.contains_key(block),
    {
        block < self.blocks.len()
    }

    /// Is there a region of this identifier?
    pub fn has_region(&self, region: RegionId) -> (b: bool)
        ensures
            b == self@.regions.contains_key(region),
    {
        region < self.regions.len() && self.regions[region].live
    }

    /// Does the value name a result or an argument that is there?
    pub fn has_value(&self, v: Value) -> (b: bool)
        ensures
            b == self@.has_value(v),
    {
        match v {
            Value::OpResult { op, idx } => self.has_op(op) && idx < self.ops[op].results.len(),
            Value::BlockArgument { block, idx } => self.has_block(block) && idx
                < self.blocks[block].args.len(),
        }
    }

    /// What an operation is.
    pub fn kind(&self, op: OpId) -> (kind: OpKind)
        requires
            self@.ops.contains_key(op),
        ensures
            kind == self@.ops[op].kind,
    {
        self.ops[op].kind
    }

    /// The number of results of an operation.
    pub fn num_results(&self, op: OpId) -> (n: usize)
        requires
            self@.ops.contains_key(op),
        ensures
            n == self@.ops[op].results.len(),
    {
        self.ops[op].results.len()
    }

    /// The types of the results of an operation.
    pub fn result_types(&self, op: OpId) -> (types: Vec<Type>)
        requires
            self@.ops.contains_key(op),
        ensures
            types@ == self@.ops[op].results.map_values(|d: Def| d.ty),
    {
        let mut types: Vec<Type> = Vec::new();
        let ghost results = self@.ops[op].results;
        let count: usize = self.ops[op].results.len();
        for i in 0..count
            invariant
                self@.ops.contains_key(op),
                results == self@.ops[op].results,
                count == results.len(),
                types@ == results.take(i as int).map_values(|d: Def| d.ty),
        {
            let ty: Type = self.ops[op].results[i].ty;
            proof {
                assert(results.take(i + 1) =~= results.take(i as int).push(results[i as int]));
                assert(results.take(i + 1).map_values(|d: Def| d.ty) =~= results.take(
                    i as int,
                ).map_values(|d: Def| d.ty).push(ty));
            }
            types.push(ty);
        }
        assert(results.take(count as int) =~= results);
        types
    }

    /// The operands of an operation.
    pub fn operands(&self, op: OpId) -> (operands: Vec<Value>)
        requires
            self@.ops.contains_key(op),
        ensures
            operands@ == self@.ops[op].operands,
    {
        copied(&self.ops[op].operands)
    }

    /// The successors of an operation.
    pub fn successors(&self, op: OpId) -> (successors: Vec<BlockId>)
        requires
            self@.ops.contains_key(op),
        ensures
            successors@ == self@.ops[op].successors,
    {
        copied(&self.ops[op].successors)
    }

    /// The regions of an operation.
    pub fn regions(&self, op: OpId) -> (regions: Vec<RegionId>)
        requires
            self@.ops.contains_key(op),
        ensures
            regions@ == self@.ops[op].regions,
    {
        copied(&self.ops[op].regions)
    }

    /// The sizes of the groups that the operands of an operation fall into.
    pub fn segments(&self, op: OpId) -> (segments: Vec<u32>)
        requires
            self@.ops.contains_key(op),
        ensures
            segments@ == self@.ops[op].segments,
    {
        copied(&self.ops[op].segments)
    }

    /// The block that holds an operation.
    pub fn parent_block(&self, op: OpId) -> (block: Option<BlockId>)
        requires
            self@.ops.contains_key(op),
        ensures
            block == self@.ops[op].parent,
    {
        self.ops[op].parent
    }

    /// The location of an operation.
    pub fn op_loc(&self, op: OpId) -> (loc: Location)
        requires
            self@.ops.contains_key(op),
        ensures
            loc == self@.ops[op].loc,
    {
        self.ops[op].loc
    }

    /// The label of a block.
    pub fn label(&self, block: BlockId) -> (label: Option<String>)
        requires
            self@.blocks.contains_key(block),
        ensures
            Edit::text(label) == self@.blocks[block].label,
    {
        copied_name(&self.blocks[block].label)
    }

    /// The number of arguments of a block.
    pub fn num_arguments(&self, block: BlockId) -> (n: usize)
        requires
            self@.blocks.contains_key(block),
        ensures
            n == self@.blocks[block].args.len(),
    {
        self.blocks[block].args.len()
    }

    /// The arguments of a block, from the one at `first` on.
    pub fn arguments_from(&self, block: BlockId, first: usize) -> (values: Vec<Value>)
        requires
            self@.blocks.contains_key(block),
        ensures
            values@ == self@.arguments_from(block, first as int),
    {
        let count: usize = self.num_arguments(block);
        let mut values: Vec<Value> = Vec::new();
        let mut i: usize = first;
        while i < count
            invariant
                first <= i,
                first <= count ==> i <= count,
                first > count ==> i == first,
                count == self@.blocks[block].args.len(),
                values@.len() == i - first,
                forall|k: int|
                    0 <= k < values@.len() ==> #[trigger] values@[k] == (Value::BlockArgument {
                        block,
                        idx: (first + k) as usize,
                    }),
            decreases count - i,
        {
            values.push(Value::BlockArgument { block, idx: i });
            i = i + 1;
        }
        assert(values@ =~= self@.arguments_from(block, first as int));
        values
    }

    /// The operations in a block.
    pub fn ops(&self, block: BlockId) -> (ops: Vec<OpId>)
        requires
            self@.blocks.contains_key(block),
        ensures
            ops@ == self@.blocks[block].ops,
    {
        copied(&self.blocks[block].ops)
    }

    /// The last operation in a block.
    pub fn last_op(&self, block: BlockId) -> (op: Option<OpId>)
        requires
            self@.blocks.contains_key(block),
        ensures
            op == (if self@.blocks[block].ops.len() == 0 {
                None
            } else {
                Some(self@.blocks[block].ops.last())
            }),
    {
        let len: usize = self.blocks[block].ops.len();
        if len == 0 {
            None
        } else {
            Some(self.blocks[block].ops[len - 1])
        }
    }

    /// The region that holds a block.
    pub fn parent_region(&self, block: BlockId) -> (region: RegionId)
        requires
            self@.blocks.contains_key(block),
        ensures
            region == self@.blocks[block].parent,
    {
        self.blocks[block].parent
    }

    /// The location of a block.
    pub fn block_loc(&self, block: BlockId) -> (loc: Location)
        requires
            self@.blocks.contains_key(block),
        ensures
            loc == self@.blocks[block].loc,
    {
        self.blocks[block].loc
    }

    /// The blocks in a region.
    pub fn blocks(&self, region: RegionId) -> (blocks: Vec<BlockId>)
        requires
            self@.regions.contains_key(region),
        ensures
            blocks@ == self@.regions[region].blocks,
    {
        copied(&self.regions[region].blocks)
    }

    /// The operation that a region belongs to.
    pub fn parent_op(&self, region: RegionId) -> (op: OpId)
        requires
            self@.regions.contains_key(region),
        ensures
            op == self@.regions[region].parent,
    {
        self.regions[region].parent
    }

    /// The type of a value.
    pub fn type_of(&self, v: Value) -> (ty: Type)
        requires
            self@.has_value(v),
        ensures
            ty == self@.def(v).ty,
    {
        match v {
            Value::OpResult { op, idx } => self.ops[op].results[idx].ty,
            Value::BlockArgument { block, idx } => self.blocks[block].args[idx].ty,
        }
    }

    /// The name of a value.
    pub fn name_of(&self, v: Value) -> (name: Option<String>)
        requires
            self@.has_value(v),
        ensures
            Edit::text(name) == self@.def(v).name,
    {
        match v {
            Value::OpResult { op, idx } => copied_name(&self.ops[op].results[idx].name),
            Value::BlockArgument { block, idx } => copied_name(&self.blocks[block].args[idx].name),
        }
    }

    /// The types of values.
    pub fn types_of(&self, values: &Vec<Value>) -> (types: Vec<Type>)
        requires
            self@.has_values(values@),
        ensures
            types@ == self@.types_of(values@),
    {
        let mut types: Vec<Type> = Vec::new();
        for i in 0..values.len()
            invariant
                self@.has_values(values@),
                types@.len() == i,
                forall|k: int| 0 <= k < i ==> #[trigger] types@[k] == self@.def(values@[k]).ty,
        {
            types.push(self.type_of(values[i]));
        }
        assert(types@ =~= self@.types_of(values@));
        types
    }

    /// The number of changes made so far.
    pub fn num_edits(&self) -> (n: usize)
        ensures
            n == self.journal().len(),
    {
        self.journal.len()
    }

    /// One of the changes made so far.
    pub fn edit(&self, i: usize) -> (edit: &Edit)
        requires
            i < self.journal().len(),
        ensures
            *edit == self.journal()[i as int],
    {
        &self.journal[i]
    }
}

/// A vector with the same elements.
pub fn copied<T: Copy>(items: &Vec<T>) -> (copy: Vec<T>)
    ensures
        copy@ == items@,
{
    let mut copy: Vec<T> = Vec::new();
    for i in 0..items.len()
        invariant
            copy@ == items@.take(i as int),
    {
        copy.push(items[i]);
    }
    copy
}

/// A copy of an optional name.
pub fn copied_name(name: &Option<String>) -> (copy: Option<String>)
    ensures
        copy == *name,
{
    match name {
        Some(name) => Some(name.clone()),
        None => None,
    }
}

/// Notes in each of the operations `moved` that it is now in block `dest`.
fn reparent_ops(ops: &mut Vec<OpData>, moved: &Vec<OpId>, dest: BlockId)
    requires
        forall|k: int| 0 <= k < moved@.len() ==> #[trigger] moved@[k] < old(ops)@.len(),
    ensures
        final(ops)@.len() == old(ops)@.len(),
        forall|o: OpId|
            #![trigger final(ops)@[o as int]]
            o < old(ops)@.len() ==> final(ops)@[o as int] == (if moved@.contains(o) {
                OpData { parent: Some(dest), ..old(ops)@[o as int] }
            } else {
                old(ops)@[o as int]
            }),
{
    let ghost stored = ops@;
    for i in 0..moved.len()
        invariant
            forall|k: int| 0 <= k < moved@.len() ==> #[trigger] moved@[k] < stored.len(),
            ops@.len() == stored.len(),
            forall|o: OpId|
                #![trigger ops@[o as int]]
                o < stored.len() ==> ops@[o as int] == (if moved@.take(i as int).contains(o) {
                    OpData { parent: Some(dest), ..stored[o as int] }
                } else {
                    stored[o as int]
                }),
    {
        let o: OpId = moved[i];
        ops[o].parent = Some(dest);
        proof {
            take_push_contains(moved@, i as int);
        }
    }
    assert(moved@.take(moved@.len() as int) =~= moved@);
}

/// Notes in each of the blocks `moved` that it is now in region `dest`.
fn reparent_blocks(blocks: &mut Vec<BlockData>, moved: &Vec<BlockId>, dest: RegionId)
    requires
        forall|k: int| 0 <= k < moved@.len() ==> #[trigger] moved@[k] < old(blocks)@.len(),
    ensures
        final(blocks)@.len() == old(blocks)@.len(),
        forall|b: BlockId|
            #![trigger final(blocks)@[b as int]]
            b < old(blocks)@.len() ==> final(blocks)@[b as int] == (if moved@.contains(b) {
                BlockData { parent: dest, ..old(blocks)@[b as int] }
            } else {
                old(blocks)@[b as int]
            }),
{
    let ghost stored = blocks@;
    for i in 0..moved.len()
        invariant
            forall|k: int| 0 <= k < moved@.len() ==> #[trigger] moved@[k] < stored.len(),
            blocks@.len() == stored.len(),
            forall|b: BlockId|
                #![trigger blocks@[b as int]]
                b < stored.len() ==> blocks@[b as int] == (if moved@.take(i as int).contains(b) {
                    BlockData { parent: dest, ..stored[b as int] }
                } else {
                    stored[b as int]
                }),
    {
        let b: BlockId = moved[i];
        blocks[b].parent = dest;
        proof {
            take_push_contains(moved@, i as int);
        }
    }
    assert(moved@.take(moved@.len() as int) =~= moved@);
}

/// Marks the regions `gone` as erased.
fn drop_regions(regions: &mut Vec<RegionData>, gone: &Vec<RegionId>)
    requires
        forall|k: int| 0 <= k < gone@.len() ==> #[trigger] gone@[k] < old(regions)@.len(),
    ensures
        final(regions)@.len() == old(regions)@.len(),
        forall|r: RegionId|
            #![trigger final(regions)@[r as int]]
            r < old(regions)@.len() ==> final(regions)@[r as int] == (if gone@.contains(r) {
                RegionData { live: false, ..old(regions)@[r as int] }
            } else {
                old(regions)@[r as int]
            }),
{
    let ghost stored = regions@;
    for i in 0..gone.len()
        invariant
            forall|k: int| 0 <= k < gone@.len() ==> #[trigger] gone@[k] < stored.len(),
            regions@.len() == stored.len(),
            forall|r: RegionId|
                #![trigger regions@[r as int]]
                r < stored.len() ==> regions@[r as int] == (if gone@.take(i as int).contains(r) {
                    RegionData { live: false, ..stored[r as int] }
                } else {
                    stored[r as int]
                }),
    {
        let r: RegionId = gone[i];
        regions[r].live = false;
        proof {
            take_push_contains(gone@, i as int);
        }
    }
    assert(gone@.take(gone@.len() as int) =~= gone@);
}

/// Can the argument that is to stand for `v` be numbered?
spec fn in_range_after(v: Value, op: OpId, first: usize) -> bool {
    match v {
        Value::OpResult { op: d, idx } => d == op ==> first + idx <= usize::MAX,
        Value::BlockArgument { .. } => true,
    }
}

/// Makes the operands that are results of `op` arguments of `block`, in every operation that
/// has not been erased.
fn substitute_operands(ops: &mut Vec<OpData>, op: OpId, block: BlockId, first: usize)
    requires
        forall|o: OpId, i: int|
            #![trigger old(ops)@[o as int].operands@[i]]
            o < old(ops)@.len() && old(ops)@[o as int].live && 0 <= i
                < old(ops)@[o as int].operands@.len() ==> in_range_after(
old(ops)@[o as int].operands@[i], op, first),
    ensures
        final(ops)@.len() == old(ops)@.len(),
        forall|o: OpId|
            #![trigger final(ops)@[o as int]]
            o < old(ops)@.len() ==> {
                &&& final(ops)@[o as int].live == old(ops)@[o as int].live
                &&& final(ops)@[o as int].live ==> final(ops)@[o as int]@ == (OpView {
                    operands: old(ops)@[o as int].operands@.map_values(
                        |v: Value| Ir::substituted(v, op, block, first as int),
                    ),
                    ..old(ops)@[o as int]@
                })
            },
{
    let ghost stored = ops@;
    let num_ops: usize = ops.len();
    for o in 0..num_ops
        invariant
            num_ops == stored.len(),
            ops@.len() == stored.len(),
            forall|p: OpId, i: int|
                #![trigger stored[p as int].operands@[i]]
                p < stored.len() && stored[p as int].live && 0 <= i
                    < stored[p as int].operands@.len() ==> in_range_after(
stored[p as int].operands@[i], op, first),
            forall|p: OpId|
                #![trigger ops@[p as int]]
                p < stored.len() ==> {
                    &&& ops@[p as int].live == stored[p as int].live
                    &&& p >= o ==> ops@[p as int] == stored[p as int]
                    &&& p < o && ops@[p as int].live ==> ops@[p as int]@ == (OpView {
                        operands: stored[p as int].operands@.map_values(
                            |v: Value| Ir::substituted(v, op, block, first as int),
                        ),
                        ..stored[p as int]@
                    })
                },
    {
        if ops[o].live {
            let mut operands: Vec<Value> = Vec::new();
            let ghost before = stored[o as int].operands@;
            let count: usize = ops[o].operands.len();
            for i in 0..count
                invariant
                    count == before.len(),
                    o < stored.len(),
                    ops@.len() == stored.len(),
                    ops@[o as int] == stored[o as int],
                    stored[o as int].live,
                    before == stored[o as int].operands@,
                    operands@.len() == i,
                    forall|k: int|
                        0 <= k < i ==> #[trigger] operands@[k] == Ir::substituted(
                            before[k],
                            op,
                            block,
                            first as int,
                        ),
                    forall|p: OpId, i: int|
                        #![trigger stored[p as int].operands@[i]]
                        p < stored.len() && stored[p as int].live && 0 <= i
                            < stored[p as int].operands@.len() ==> in_range_after(
stored[p as int].operands@[i], op, first),
            {
                let v: Value = ops[o].operands[i];
                assert(v == stored[o as int].operands@[i as int]);
                match v {
                    Value::OpResult { op: d, idx } => {
                        if d == op {
                            operands.push(Value::BlockArgument { block, idx: first + idx });
                        } else {
                            operands.push(v);
                        }
                    },
                    Value::BlockArgument { .. } => {
                        operands.push(v);
                    },
                }
            }
            ops[o].operands = operands;
            assert(ops@[o as int]@ =~= (OpView {
                operands: before.map_values(
                    |v: Value| Ir::substituted(v, op, block, first as int),
                ),
                ..stored[o as int]@
            }));
        }
    }
}

/// One more element of a prefix is one more element that it contains.
proof fn take_push_contains(s: Seq<usize>, i: int)
    requires
        0 <= i < s.len(),
    ensures
        forall|x: usize| #[trigger]
            s.take(i + 1).contains(x) == (s.take(i).contains(x) || x == s[i]),
{
    assert forall|x: usize| #[trigger] s.take(i + 1).contains(x) == (s.take(i).contains(x) || x
        == s[i]) by {
        if s.take(i).contains(x) {
            let k = s.take(i).index_of(x);
            assert(s.take(i + 1)[k] == x);
        }
        assert(s.take(i + 1)[i] == s[i]);
        if s.take(i + 1).contains(x) && x != s[i] {
            let k = s.take(i + 1).index_of(x);
            assert(s.take(i)[k] == x);
        }
    }
}

/// Definitions of the given types, without names.
fn unnamed_definitions(types: &Vec<Type>) -> (defs: Vec<Definition>)
    ensures
        defs@.map_values(|d: Definition| d@) == Def::all_unnamed(types@),
{
    let mut defs: Vec<Definition> = Vec::new();
    for i in 0..types.len()
        invariant
            defs@.len() == i,
            forall|k: int| 0 <= k < i ==> (#[trigger] defs@[k])@ == Def::unnamed(types@[k]),
    {
        let def = Definition { ty: types[i], name: None };
        assert(def@ =~= Def::unnamed(types@[i as int]));
        defs.push(def);
    }
    defs
}

} // verus!
