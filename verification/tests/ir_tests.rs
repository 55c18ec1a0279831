//! The intermediate representation: its journal, and what single lowerings make of it.

use cf_dialect::cf::ops::{BrOp, CondBrOp, ExecuteRegionOp, ForOp, IfOp, NDForOp, YieldOp};
use cf_dialect::cf::to_llvm::CFToLLVM;
use cf_dialect::ir::context::{copied, copied_name, Context};
use cf_dialect::ir::edit::Edit;
use cf_dialect::ir::rewriter::IRRewriter;
use cf_dialect::ir::types::{
    BlockId, BlockInsertionPoint, Location, OpId, OpInsertionPoint, OpKind, OtherOp, OtherType,
    Type, Value,
};

const FP32: Type = Type::Other(OtherType { id: 1, converts_to_llvm: false });

fn other(id: u64) -> OpKind {
    OpKind::Other(OtherOp { id, terminator: false, branch: false, converts_to_llvm: false })
}

struct Scene {
    ctx: Context,
    top: OpId,
    block: BlockId,
}

impl Scene {
    fn new() -> Scene {
        let mut ctx = Context::new();
        let top = ctx.create_op(other(0), vec![], vec![], vec![], 1, vec![]);
        let region = ctx.regions(top)[0];
        let point = BlockInsertionPoint::AtRegionStart(region);
        let block = ctx.create_block(point, Some("top".to_string()), vec![]);
        Scene { ctx, top, block }
    }

    fn place(&mut self, op: OpId) {
        self.ctx.insert_op(op, OpInsertionPoint::AtBlockEnd(self.block));
    }

    fn value(&mut self, ty: Type) -> Value {
        let op = self.ctx.create_op(other(1), vec![ty], vec![], vec![], 0, vec![]);
        self.place(op);
        Value::OpResult { op, idx: 0 }
    }

    fn user(&mut self, operands: Vec<Value>) -> OpId {
        let op = self.ctx.create_op(other(2), vec![], operands, vec![], 0, vec![]);
        self.place(op);
        op
    }

    fn lower(&mut self, op: OpId) {
        let mut rewriter = IRRewriter::new(OpInsertionPoint::BeforeOperation(op));
        CFToLLVM.rewrite(&mut self.ctx, &mut rewriter, op).unwrap();
        assert!(!self.ctx.has_op(op));
    }

    /// The blocks beside the one in which everything stands.
    fn blocks(&self) -> Vec<BlockId> {
        self.ctx.blocks(self.ctx.regions(self.top)[0])
    }

    fn kinds(&self, block: BlockId) -> Vec<OpKind> {
        self.ctx.ops(block).into_iter().map(|op| self.ctx.kind(op)).collect()
    }

    fn last(&self, block: BlockId) -> OpId {
        self.ctx.last_op(block).unwrap()
    }
}

/// Does again what a journal notes, from the entry at `first` on.
fn replay(ctx: &mut Context, journal: &Context, first: usize) {
    for i in first..journal.num_edits() {
        match journal.edit(i) {
            Edit::CreateOp {
                kind,
                result_types,
                operands,
                successors,
                num_regions,
                segments,
            } => {
                ctx.create_op(
                    *kind,
                    copied(result_types),
                    copied(operands),
                    copied(successors),
                    *num_regions,
                    copied(segments),
                );
            }
            Edit::CreateRegion { op } => {
                ctx.create_region(*op);
            }
            Edit::CreateBlock { point, label, arg_types } => {
                ctx.create_block(*point, copied_name(label), copied(arg_types));
            }
            Edit::InsertOp { op, at } => ctx.insert_op(*op, *at),
            Edit::MoveTail { first, dest } => ctx.move_tail(*first, *dest),
            Edit::InlineRegion { src, after } => ctx.inline_region(*src, *after),
            Edit::EraseOp { op } => ctx.erase_op(*op),
            Edit::ReplaceResults { op, block, first_arg } => {
                ctx.replace_results(*op, *block, *first_arg)
            }
            Edit::RetypeArgument { block, idx, ty } => ctx.retype_argument(*block, *idx, *ty),
            Edit::NameArgument { block, idx, name } => {
                ctx.name_argument(*block, *idx, name.clone())
            }
            Edit::NameResult { op, idx, name } => ctx.name_result(*op, *idx, name.clone()),
            Edit::LocateBlock { block, loc } => ctx.locate_block(*block, *loc),
            Edit::LocateOp { op, loc } => ctx.locate_op(*op, *loc),
            Edit::SetOperands { op, operands, segments } => {
                ctx.set_operands(*op, copied(operands), copied(segments))
            }
        }
    }
}

/// All that can be read of an operation and of what is in it.
fn dump(ctx: &Context, op: OpId) -> String {
    let names: Vec<Option<String>> =
        (0..ctx.num_results(op)).map(|idx| ctx.name_of(Value::OpResult { op, idx })).collect();
    let mut text = format!(
        "{} {:?} {:?} {:?} {:?} {:?} {:?} {:?} {:?}\n",
        op,
        ctx.kind(op),
        ctx.result_types(op),
        names,
        ctx.operands(op),
        ctx.successors(op),
        ctx.segments(op),
        ctx.parent_block(op),
        ctx.op_loc(op),
    );
    for region in ctx.regions(op) {
        text += &format!("region {} of {}\n", region, ctx.parent_op(region));
        for block in ctx.blocks(region) {
            let args = ctx.arguments_from(block, 0);
            let names: Vec<Option<String>> = args.iter().map(|v| ctx.name_of(*v)).collect();
            text += &format!(
                "block {} {:?} {:?} {:?} {:?} in {}\n",
                block,
                ctx.label(block),
                ctx.types_of(&args),
                names,
                ctx.block_loc(block),
                ctx.parent_region(block),
            );
            for inner in ctx.ops(block) {
                text += &dump(ctx, inner);
            }
        }
    }
    text
}

/// A scene with a loop that carries a number, and something that uses its result.
fn loop_scene() -> (Scene, OpId, OpId) {
    let mut scene = Scene::new();
    let lower = scene.value(Type::Index);
    let upper = scene.value(Type::Index);
    let step = scene.value(Type::Index);
    let init = scene.value(FP32);
    let this = ForOp::new(
        &mut scene.ctx,
        lower,
        upper,
        step,
        &vec![init],
        |_: &mut Context, _: (), _: &mut IRRewriter, _: Value, args: &[Value]| args.to_vec(),
        (),
    );
    scene.ctx.name_result(this.op, 0, "sum".to_string());
    scene.ctx.locate_op(this.op, Location::Known(5));
    scene.place(this.op);
    let result = Value::OpResult { op: this.op, idx: 0 };
    let user = scene.user(vec![result, init]);
    (scene, this.op, user)
}

#[test]
fn journal_can_be_replayed() {
    let (mut scene, op, _) = loop_scene();
    let mut copy = Context::new();
    replay(&mut copy, &scene.ctx, 0);
    assert_eq!(dump(&copy, scene.top), dump(&scene.ctx, scene.top));
    // What a lowering does can be done to another context, from where that stands.
    let first = scene.ctx.num_edits();
    scene.lower(op);
    assert_ne!(dump(&copy, scene.top), dump(&scene.ctx, scene.top));
    replay(&mut copy, &scene.ctx, first);
    assert_eq!(dump(&copy, scene.top), dump(&scene.ctx, scene.top));
    assert_eq!(copy.num_edits(), scene.ctx.num_edits());
}

#[test]
fn loop_becomes_header_and_body() {
    let (mut scene, op, user) = loop_scene();
    let this = ForOp { op };
    let entry = scene.ctx.blocks(scene.ctx.regions(op)[0])[0];
    let inits = this.get_iter_args_init(&scene.ctx);
    let lower = this.get_lower_bound(&scene.ctx);
    let upper = this.get_upper_bound(&scene.ctx);
    let step = this.get_step(&scene.ctx);
    scene.lower(op);
    let blocks = scene.blocks();
    assert_eq!(blocks.len(), 4);
    let (pre, header, body, after) = (blocks[0], blocks[1], blocks[2], blocks[3]);
    assert_eq!(pre, scene.block);
    assert_eq!(body, entry);
    let ctx = &scene.ctx;
    assert_eq!(ctx.label(header), Some("for_op_header".to_string()));
    assert_eq!(ctx.label(after), Some("top_split".to_string()));
    assert_eq!(ctx.block_loc(header), Location::Known(5));
    let header_args = ctx.arguments_from(header, 0);
    assert_eq!(ctx.types_of(&header_args), vec![Type::i64(), FP32]);
    assert_eq!(ctx.name_of(header_args[0]), None);
    assert_eq!(ctx.name_of(header_args[1]), Some("sum".to_string()));
    // Into the header with the lower bound and the initial values.
    assert_eq!(ctx.operands(scene.last(pre)), vec![lower, inits[0]]);
    assert_eq!(ctx.successors(scene.last(pre)), vec![header]);
    // On to the body, or behind the loop.
    assert_eq!(ctx.operands(ctx.ops(header)[0]), vec![header_args[0], upper]);
    let decide = scene.last(header);
    assert_eq!(ctx.successors(decide), vec![body, after]);
    assert_eq!(ctx.get_segment(decide, 1), header_args);
    assert_eq!(ctx.get_segment(decide, 2), vec![]);
    // Back to the header.
    let iv = Value::BlockArgument { block: body, idx: 0 };
    assert_eq!(ctx.type_of(iv), Type::i64());
    let ops = ctx.ops(body);
    assert_eq!(ctx.operands(ops[0]), vec![iv, step]);
    let next = Value::OpResult { op: ops[0], idx: 0 };
    assert_eq!(
        ctx.operands(ops[1]),
        vec![next, Value::BlockArgument { block: body, idx: 1 }]
    );
    assert_eq!(ctx.successors(ops[1]), vec![header]);
    // The result is what the header carries.
    assert_eq!(ctx.ops(after), vec![user]);
    assert_eq!(ctx.operands(user), vec![header_args[1], inits[0]]);
}

#[test]
fn nd_loop_becomes_a_nest() {
    let mut scene = Scene::new();
    let v: Vec<Value> = (0..6).map(|_| scene.value(Type::Index)).collect();
    let this = NDForOp::new(
        &mut scene.ctx,
        vec![v[0], v[1]],
        vec![v[2], v[3]],
        vec![v[4], v[5]],
        |_: &mut Context, _: (), _: &mut IRRewriter, _: Vec<Value>| {},
        (),
    );
    scene.ctx.locate_op(this.op, Location::Known(3));
    scene.place(this.op);
    let behind = scene.user(vec![]);
    let body = scene.ctx.blocks(scene.ctx.regions(this.op)[0])[0];
    scene.lower(this.op);
    let ctx = &scene.ctx;
    assert_eq!(scene.blocks(), vec![scene.block]);
    let ops = ctx.ops(scene.block);
    assert_eq!(ops[ops.len() - 1], behind);
    let outer = ForOp { op: ops[ops.len() - 2] };
    assert_eq!(ctx.kind(outer.op), OpKind::CfFor);
    assert_eq!(ctx.op_loc(outer.op), Location::Known(3));
    assert_eq!(ctx.operands(outer.op), vec![v[0], v[2], v[4]]);
    let outer_entry = ctx.blocks(ctx.regions(outer.op)[0])[0];
    let inside = ctx.ops(outer_entry);
    assert_eq!(inside.len(), 2);
    let inner = ForOp { op: inside[0] };
    assert_eq!(ctx.operands(inner.op), vec![v[1], v[3], v[5]]);
    assert_eq!(ctx.kind(inside[1]), OpKind::CfYield);
    let inner_blocks = ctx.blocks(ctx.regions(inner.op)[0]);
    assert_eq!(inner_blocks.len(), 2);
    assert_eq!(inner_blocks[1], body);
    // The body gets the induction variables, the outermost first.
    let jump = scene.last(inner_blocks[0]);
    assert_eq!(ctx.kind(jump), OpKind::LlvmBr);
    assert_eq!(
        ctx.operands(jump),
        vec![outer.get_induction_variable(ctx), inner.get_induction_variable(ctx)]
    );
    assert_eq!(scene.kinds(body), vec![OpKind::CfYield]);
}

#[test]
fn region_is_inlined_before_its_continuation() {
    let mut scene = Scene::new();
    let x = scene.value(FP32);
    let this = ExecuteRegionOp::new(
        &mut scene.ctx,
        vec![FP32],
        |_: &mut Context, v: Value, _: &mut IRRewriter| vec![v],
        x,
    );
    scene.place(this.op);
    let user = scene.user(vec![Value::OpResult { op: this.op, idx: 0 }]);
    let entry = scene.ctx.blocks(scene.ctx.regions(this.op)[0])[0];
    scene.lower(this.op);
    let ctx = &scene.ctx;
    let blocks = scene.blocks();
    assert_eq!(blocks.len(), 3);
    assert_eq!(blocks[1], entry);
    assert_eq!(ctx.label(blocks[2]), None);
    assert_eq!(ctx.successors(scene.last(scene.block)), vec![entry]);
    assert_eq!(ctx.operands(scene.last(scene.block)), vec![]);
    assert_eq!(ctx.successors(scene.last(entry)), vec![blocks[2]]);
    assert_eq!(ctx.operands(scene.last(entry)), vec![x]);
    assert_eq!(ctx.operands(user), vec![Value::BlockArgument { block: blocks[2], idx: 0 }]);
    assert_eq!(ctx.parent_block(user), Some(blocks[2]));
}

#[test]
fn choice_without_else_may_skip_its_region() {
    let mut scene = Scene::new();
    let c = scene.value(Type::i1());
    let this = IfOp::new(&mut scene.ctx, c, vec![], false);
    scene.place(this.op);
    let entry = scene.ctx.blocks(scene.ctx.regions(this.op)[0])[0];
    let y = YieldOp::new(&mut scene.ctx, vec![]).op;
    scene.ctx.insert_op(y, OpInsertionPoint::AtBlockStart(entry));
    let behind = scene.user(vec![c]);
    scene.lower(this.op);
    let ctx = &scene.ctx;
    let blocks = scene.blocks();
    assert_eq!(blocks.len(), 3);
    let decide = scene.last(scene.block);
    assert_eq!(ctx.successors(decide), vec![entry, blocks[2]]);
    assert_eq!(ctx.operands(decide), vec![c]);
    assert_eq!(ctx.successors(scene.last(entry)), vec![blocks[2]]);
    assert_eq!(ctx.ops(blocks[2]), vec![behind]);
    assert!(!ctx.has_op(y));
}

#[test]
fn branches_keep_their_place_and_location() {
    let mut scene = Scene::new();
    let c = scene.value(Type::i1());
    let x = scene.value(FP32);
    let point = BlockInsertionPoint::AfterBlock(scene.block);
    let dest = scene.ctx.create_block(point, None, vec![FP32]);
    let br = BrOp::new(&mut scene.ctx, dest, vec![x]).op;
    scene.ctx.locate_op(br, Location::Known(8));
    scene.place(br);
    scene.lower(br);
    let last = scene.last(scene.block);
    assert_eq!(scene.ctx.kind(last), OpKind::LlvmBr);
    assert_eq!(scene.ctx.operands(last), vec![x]);
    assert_eq!(scene.ctx.successors(last), vec![dest]);
    assert_eq!(scene.ctx.op_loc(last), Location::Known(8));
    let mut scene = Scene::new();
    let d = scene.value(Type::i1());
    assert_eq!(c, d);
    let x = scene.value(FP32);
    let point = BlockInsertionPoint::AfterBlock(scene.block);
    let one = scene.ctx.create_block(point, None, vec![FP32]);
    let two = scene.ctx.create_block(point, None, vec![]);
    let br = CondBrOp::new(&mut scene.ctx, d, one, vec![x], two, vec![]).op;
    scene.place(br);
    scene.lower(br);
    let last = scene.last(scene.block);
    assert_eq!(scene.ctx.kind(last), OpKind::LlvmCondBr);
    assert_eq!(scene.ctx.operands(last), vec![d, x]);
    assert_eq!(scene.ctx.segments(last), vec![1, 1, 0]);
    assert_eq!(scene.ctx.successors(last), vec![one, two]);
}

#[test]
fn insertion_points_follow_what_is_inserted() {
    let mut scene = Scene::new();
    let a = scene.user(vec![]);
    let c = scene.user(vec![]);
    let mut rewriter = IRRewriter::new(OpInsertionPoint::AfterOperation(a));
    assert_eq!(rewriter.get_insertion_block(&scene.ctx), scene.block);
    let b = scene.ctx.create_op(other(3), vec![], vec![], vec![], 0, vec![]);
    rewriter.append_op(&mut scene.ctx, b);
    assert_eq!(scene.ctx.ops(scene.block), vec![a, b, c]);
    assert_eq!(rewriter.get_insertion_point(), OpInsertionPoint::AfterOperation(b));
    let second = rewriter.split_block(&mut scene.ctx, b);
    assert_eq!(scene.ctx.ops(scene.block), vec![a]);
    assert_eq!(scene.ctx.ops(second), vec![b, c]);
    assert_eq!(scene.ctx.label(second), Some("top_split".to_string()));
    assert_eq!(scene.ctx.position_of(c), 1);
    assert_eq!(scene.ctx.position_of_block(second), 1);
}
