//! Making, reading out and checking the operations.

use cf_dialect::cf::op_interfaces::{YieldingOp, YieldingRegions, YieldingRegionsVerifyErr};
use cf_dialect::cf::ops::{
    BrOp, CondBrOp, CondBrOpVerifyErr, ExecuteRegionOp, ExecuteRegionOpVerifyErr, ForOp,
    ForOpVerifyErr, IfOp, IfOpVerifyErr, NDForOp, NDForOpParseErr, NDForOpVerifyErr, YieldOp,
    YieldOpVerifyErr,
};
use cf_dialect::cf::to_llvm::{CFToLLVM, ForOpConversionErr, NDForOpConversionErr};
use cf_dialect::cf::verify::{can_verify_op, verify_op, VerifyErr};
use cf_dialect::index::types::IndexType;
use cf_dialect::ir::context::Context;
use cf_dialect::ir::rewriter::IRRewriter;
use cf_dialect::ir::types::{
    BlockId, BlockInsertionPoint, OpId, OpInsertionPoint, OpKind, OtherOp, OtherType, Type, Value,
};

const FP32: Type = Type::Other(OtherType { id: 1, converts_to_llvm: false });

/// An operation with one block, in which the others stand.
struct Scene {
    ctx: Context,
    block: BlockId,
}

fn other(id: u64) -> OpKind {
    OpKind::Other(OtherOp { id, terminator: false, branch: false, converts_to_llvm: false })
}

impl Scene {
    fn new() -> Scene {
        let mut ctx = Context::new();
        let top = ctx.create_op(other(0), vec![], vec![], vec![], 1, vec![]);
        let region = ctx.regions(top)[0];
        let point = BlockInsertionPoint::AtRegionStart(region);
        let block = ctx.create_block(point, Some("entry".to_string()), vec![]);
        Scene { ctx, block }
    }

    fn place(&mut self, op: OpId) {
        self.ctx.insert_op(op, OpInsertionPoint::AtBlockEnd(self.block));
    }

    fn value(&mut self, ty: Type, name: Option<&str>) -> Value {
        let op = self.ctx.create_op(other(1), vec![ty], vec![], vec![], 0, vec![]);
        if let Some(name) = name {
            self.ctx.name_result(op, 0, name.to_string());
        }
        self.place(op);
        Value::OpResult { op, idx: 0 }
    }

    fn block(&mut self, types: Vec<Type>) -> BlockId {
        self.ctx.create_block(BlockInsertionPoint::AfterBlock(self.block), None, types)
    }

    /// An operation of the given kind with one block in each of its regions.
    fn structured(
        &mut self,
        kind: OpKind,
        results: Vec<Type>,
        operands: Vec<Value>,
        segments: Vec<u32>,
        args: Vec<Vec<Type>>,
    ) -> OpId {
        let op = self.ctx.create_op(kind, results, operands, vec![], args.len(), segments);
        let regions = self.ctx.regions(op);
        for (region, types) in regions.into_iter().zip(args) {
            self.ctx.create_block(BlockInsertionPoint::AtRegionStart(region), None, types);
        }
        self.place(op);
        op
    }

    fn yield_in(&mut self, op: OpId, region: usize, values: Vec<Value>) -> OpId {
        let blocks = self.ctx.blocks(self.ctx.regions(op)[region]);
        let y = YieldOp::new(&mut self.ctx, values).op;
        self.ctx.insert_op(y, OpInsertionPoint::AtBlockEnd(blocks[blocks.len() - 1]));
        y
    }
}

#[test]
fn for_new_names_and_types_its_body() {
    let mut scene = Scene::new();
    let lower = scene.value(Type::Index, None);
    let upper = scene.value(Type::Index, None);
    let step = scene.value(Type::Index, None);
    let named = scene.value(FP32, Some("total"));
    let unnamed = scene.value(Type::i64(), None);
    let this = ForOp::new(
        &mut scene.ctx,
        lower,
        upper,
        step,
        &vec![named, unnamed],
        |ctx: &mut Context, flag: u32, inserter: &mut IRRewriter, iv: Value, args: &[Value]| {
            assert_eq!(flag, 7);
            assert_eq!(ctx.type_of(iv), Type::Index);
            assert_eq!(args.len(), 2);
            let op = ctx.create_op(other(2), vec![FP32], vec![args[0]], vec![], 0, vec![]);
            inserter.insert_op(ctx, op);
            vec![Value::OpResult { op, idx: 0 }, args[1]]
        },
        7,
    );
    scene.place(this.op);
    let ctx = &scene.ctx;
    assert_eq!(this.get_lower_bound(ctx), lower);
    assert_eq!(this.get_upper_bound(ctx), upper);
    assert_eq!(this.get_step(ctx), step);
    assert_eq!(this.get_iter_args_init(ctx), vec![named, unnamed]);
    assert_eq!(this.get_num_iter_arg_inits(ctx), 2);
    let entry = this.get_entry(ctx, 0);
    assert_eq!(entry, this.get_exit(ctx, 0));
    assert_eq!(ctx.label(entry), Some("entry".to_string()));
    let iv = this.get_induction_variable(ctx);
    assert_eq!(iv, Value::BlockArgument { block: entry, idx: 0 });
    assert_eq!(ctx.name_of(iv), Some("iv".to_string()));
    let variables = this.get_loop_carried_variables(ctx);
    assert_eq!(ctx.types_of(&variables), vec![FP32, Type::i64()]);
    assert_eq!(ctx.name_of(variables[0]), Some("total".to_string()));
    assert_eq!(ctx.name_of(variables[1]), Some("loop_var_1".to_string()));
    assert_eq!(ctx.result_types(this.op), vec![FP32, Type::i64()]);
    let y: YieldOp = this.get_yield(ctx, 0);
    assert_eq!(ctx.operands(y.op)[1], variables[1]);
    assert_eq!(ctx.ops(entry).len(), 2);
    assert_eq!(verify_op(ctx, this.op), Ok(()));
    assert_eq!(verify_op(ctx, y.op), Ok(()));
}

#[test]
fn loop_variables_are_numbered_in_decimal() {
    let mut scene = Scene::new();
    let index = scene.value(Type::Index, None);
    let inits: Vec<Value> = (0..13).map(|_| scene.value(FP32, None)).collect();
    let this = ForOp::new(
        &mut scene.ctx,
        index,
        index,
        index,
        &inits,
        |_: &mut Context, _: (), _: &mut IRRewriter, _: Value, args: &[Value]| args.to_vec(),
        (),
    );
    let variables = this.get_loop_carried_variables(&scene.ctx);
    assert_eq!(scene.ctx.name_of(variables[9]), Some("loop_var_9".to_string()));
    assert_eq!(scene.ctx.name_of(variables[10]), Some("loop_var_10".to_string()));
    assert_eq!(scene.ctx.name_of(variables[12]), Some("loop_var_12".to_string()));
}

#[test]
fn nd_for_new_takes_an_index_per_dimension() {
    let mut scene = Scene::new();
    let a = scene.value(Type::Index, None);
    let b = scene.value(Type::Index, None);
    let this = NDForOp::new(
        &mut scene.ctx,
        vec![a, a],
        vec![b, b],
        vec![a, b],
        |_: &mut Context, _: (), _: &mut IRRewriter, indices: Vec<Value>| {
            assert_eq!(indices.len(), 2);
        },
        (),
    );
    scene.place(this.op);
    let ctx = &scene.ctx;
    assert_eq!(this.get_lower_bounds(ctx), vec![a, a]);
    assert_eq!(this.get_upper_bounds(ctx), vec![b, b]);
    assert_eq!(this.get_steps(ctx), vec![a, b]);
    assert_eq!(this.get_num_induction_variables(ctx), 2);
    let indices = this.get_induction_variables(ctx);
    assert_eq!(ctx.types_of(&indices), vec![Type::Index, Type::Index]);
    assert_eq!(ctx.num_results(this.op), 0);
    let y: YieldOp = this.get_yield(ctx, 0);
    assert_eq!(ctx.operands(y.op), vec![]);
    assert_eq!(verify_op(ctx, this.op), Ok(()));
    assert_eq!(verify_op(ctx, y.op), Ok(()));
}

#[test]
fn execute_region_new_yields_what_its_builder_returns() {
    let mut scene = Scene::new();
    let x = scene.value(FP32, None);
    let this = ExecuteRegionOp::new(
        &mut scene.ctx,
        vec![FP32],
        |_: &mut Context, v: Value, _: &mut IRRewriter| vec![v],
        x,
    );
    scene.place(this.op);
    let ctx = &scene.ctx;
    assert_eq!(ctx.num_arguments(this.get_entry(ctx, 0)), 0);
    let y: YieldOp = this.get_yield(ctx, 0);
    assert_eq!(ctx.operands(y.op), vec![x]);
    assert_eq!(verify_op(ctx, this.op), Ok(()));
    assert_eq!(verify_op(ctx, y.op), Ok(()));
}

#[test]
fn if_new_makes_one_or_two_regions() {
    let mut scene = Scene::new();
    let condition = scene.value(Type::i1(), None);
    let with = IfOp::new(&mut scene.ctx, condition, vec![FP32], true);
    assert!(with.has_else_region(&scene.ctx));
    assert_eq!(scene.ctx.regions(with.op).len(), 2);
    assert_eq!(with.get_condition(&scene.ctx), condition);
    let without = IfOp::new(&mut scene.ctx, condition, vec![], false);
    assert!(!without.has_else_region(&scene.ctx));
    scene.place(without.op);
    scene.yield_in(without.op, 0, vec![]);
    assert_eq!(verify_op(&scene.ctx, without.op), Ok(()));
}

#[test]
fn yield_must_match_its_parent() {
    let mut scene = Scene::new();
    let x = scene.value(FP32, None);
    let n = scene.value(Type::i64(), None);
    let op = scene.structured(OpKind::CfExecuteRegion, vec![FP32], vec![], vec![], vec![vec![]]);
    let loose = YieldOp::new(&mut scene.ctx, vec![x]);
    assert_eq!(loose.verify(&scene.ctx), Err(YieldOpVerifyErr::MissingParentOp));
    let wrong = YieldOp { op: scene.yield_in(op, 0, vec![n]) };
    assert_eq!(wrong.verify(&scene.ctx), Err(YieldOpVerifyErr::OperandTypeMismatch));
    let many = YieldOp { op: scene.yield_in(op, 0, vec![x, x]) };
    assert_eq!(
        verify_op(&scene.ctx, many.op),
        Err(VerifyErr::Yield(YieldOpVerifyErr::OperandTypeMismatch))
    );
    let right = YieldOp { op: scene.yield_in(op, 0, vec![x]) };
    assert_eq!(right.verify(&scene.ctx), Ok(()));
    assert_eq!(right.get_operation(), right.op);
    assert!(YieldOp::from_operation(&scene.ctx, right.op).is_some());
    assert!(YieldOp::from_operation(&scene.ctx, op).is_none());
}

#[test]
fn branch_must_forward_what_its_target_takes() {
    let mut scene = Scene::new();
    let x = scene.value(FP32, None);
    let n = scene.value(Type::i64(), None);
    let dest = scene.block(vec![FP32]);
    let br = BrOp::new(&mut scene.ctx, dest, vec![]);
    assert_eq!(verify_op(&scene.ctx, br.op), Err(VerifyErr::ForwardedCount));
    assert_eq!(br.add_successor_operand(&mut scene.ctx, 0, n), 0);
    assert_eq!(verify_op(&scene.ctx, br.op), Err(VerifyErr::ForwardedType));
    assert_eq!(br.remove_successor_operand(&mut scene.ctx, 0, 0), n);
    assert_eq!(br.add_successor_operand(&mut scene.ctx, 0, x), 0);
    assert_eq!(br.successor_operands(&scene.ctx, 0), vec![x]);
    assert_eq!(verify_op(&scene.ctx, br.op), Ok(()));
    let none = scene.ctx.create_op(OpKind::CfBr, vec![], vec![], vec![], 0, vec![]);
    assert_eq!(verify_op(&scene.ctx, none), Err(VerifyErr::NumSuccessors));
    let valued = scene.ctx.create_op(OpKind::CfBr, vec![FP32], vec![], vec![dest], 0, vec![]);
    assert_eq!(verify_op(&scene.ctx, valued), Err(VerifyErr::NumResults));
}

#[test]
fn conditional_branch_keeps_its_segments_apart() {
    let mut scene = Scene::new();
    let c = scene.value(Type::i1(), None);
    let x = scene.value(FP32, None);
    let y = scene.value(FP32, None);
    let n = scene.value(Type::i64(), None);
    let one = scene.block(vec![FP32]);
    let two = scene.block(vec![FP32, FP32]);
    let br = CondBrOp::new(&mut scene.ctx, c, one, vec![x], two, vec![x, y]);
    assert_eq!(br.get_operand_condition(&scene.ctx), c);
    assert_eq!(br.successor_operands(&scene.ctx, 0), vec![x]);
    assert_eq!(br.successor_operands(&scene.ctx, 1), vec![x, y]);
    assert_eq!(verify_op(&scene.ctx, br.op), Ok(()));
    assert_eq!(scene.ctx.segments(br.op), vec![1, 1, 2]);
    // What is added last goes behind what is there for the same successor.
    assert_eq!(br.add_successor_operand(&mut scene.ctx, 0, y), 1);
    assert_eq!(br.successor_operands(&scene.ctx, 0), vec![x, y]);
    assert_eq!(br.successor_operands(&scene.ctx, 1), vec![x, y]);
    assert_eq!(scene.ctx.operands(br.op), vec![c, x, y, x, y]);
    assert_eq!(verify_op(&scene.ctx, br.op), Err(VerifyErr::ForwardedCount));
    assert_eq!(br.remove_successor_operand(&mut scene.ctx, 0, 0), x);
    assert_eq!(br.successor_operands(&scene.ctx, 0), vec![y]);
    assert_eq!(br.remove_successor_operand(&mut scene.ctx, 1, 1), y);
    assert_eq!(br.successor_operands(&scene.ctx, 1), vec![x]);
    assert_eq!(scene.ctx.segments(br.op), vec![1, 1, 1]);
    let bad = CondBrOp::new(&mut scene.ctx, n, one, vec![x], two, vec![x, y]);
    assert_eq!(bad.verify(&scene.ctx), Err(CondBrOpVerifyErr::IncorrectConditionType));
    assert_eq!(
        verify_op(&scene.ctx, bad.op),
        Err(VerifyErr::CondBr(CondBrOpVerifyErr::IncorrectConditionType))
    );
    let typed = CondBrOp::new(&mut scene.ctx, c, one, vec![x], two, vec![x, n]);
    assert_eq!(verify_op(&scene.ctx, typed.op), Err(VerifyErr::ForwardedType));
}

#[test]
fn conditional_branch_must_have_three_segments() {
    let mut scene = Scene::new();
    let c = scene.value(Type::i1(), None);
    let dest = scene.block(vec![]);
    let ctx = &mut scene.ctx;
    let kind = OpKind::CfCondBr;
    let two = ctx.create_op(kind, vec![], vec![c], vec![dest, dest], 0, vec![1, 0]);
    assert_eq!(verify_op(ctx, two), Err(VerifyErr::SegmentCount));
    let short = ctx.create_op(kind, vec![], vec![c], vec![dest, dest], 0, vec![0, 0, 0]);
    assert_eq!(verify_op(ctx, short), Err(VerifyErr::SegmentTotal));
    let long = ctx.create_op(kind, vec![], vec![c], vec![dest, dest], 0, vec![1, 1, 0]);
    assert_eq!(verify_op(ctx, long), Err(VerifyErr::SegmentTotal));
    let right = ctx.create_op(kind, vec![], vec![c], vec![dest, dest], 0, vec![1, 0, 0]);
    assert_eq!(verify_op(ctx, right), Ok(()));
    let single = ctx.create_op(kind, vec![], vec![c], vec![dest], 0, vec![1, 0, 0]);
    assert_eq!(verify_op(ctx, single), Err(VerifyErr::NumSuccessors));
}

#[test]
fn loop_counts_and_types_must_match() {
    let mut scene = Scene::new();
    let i = scene.value(Type::Index, None);
    let n = scene.value(Type::i64(), None);
    let x = scene.value(FP32, None);
    let check = |scene: &mut Scene,
                 results: Vec<Type>,
                 operands: Vec<Value>,
                 segments: Vec<u32>,
                 args: Vec<Type>,
                 yields: Vec<Value>| {
        let op = scene.structured(OpKind::CfFor, results, operands, segments, vec![args]);
        scene.yield_in(op, 0, yields);
        verify_op(&scene.ctx, op)
    };
    let index = Type::Index;
    assert_eq!(
        check(&mut scene, vec![FP32], vec![i, i, i, x], vec![3, 1], vec![index, FP32], vec![x]),
        Ok(())
    );
    assert_eq!(
        check(&mut scene, vec![], vec![i, i, i, x], vec![3, 1], vec![index, FP32], vec![x]),
        Err(VerifyErr::For(ForOpVerifyErr::IterArgsCountMismatch))
    );
    assert_eq!(
        check(&mut scene, vec![FP32], vec![i, i, i, x], vec![3, 1], vec![index], vec![x]),
        Err(VerifyErr::For(ForOpVerifyErr::IterArgsCountMismatch))
    );
    assert_eq!(
        check(&mut scene, vec![FP32], vec![i, i, i, n], vec![3, 1], vec![index, FP32], vec![x]),
        Err(VerifyErr::For(ForOpVerifyErr::IterArgsTypeMismatch))
    );
    assert_eq!(
        check(&mut scene, vec![FP32], vec![i, n, i, x], vec![3, 1], vec![index, FP32], vec![x]),
        Err(VerifyErr::For(ForOpVerifyErr::InductionVarTypeMismatch))
    );
    assert_eq!(
        check(&mut scene, vec![], vec![i, i, i], vec![3, 0], vec![Type::i64()], vec![]),
        Err(VerifyErr::For(ForOpVerifyErr::InductionVarTypeMismatch))
    );
    assert_eq!(
        check(&mut scene, vec![], vec![i, i, i], vec![3], vec![index], vec![]),
        Err(VerifyErr::SegmentCount)
    );
    assert_eq!(
        check(&mut scene, vec![], vec![i, i, i], vec![2, 0], vec![index], vec![]),
        Err(VerifyErr::SegmentTotal)
    );
}

#[test]
fn nd_loop_counts_and_types_must_match() {
    let mut scene = Scene::new();
    let i = scene.value(Type::Index, None);
    let n = scene.value(Type::i64(), None);
    let check = |scene: &mut Scene, operands: Vec<Value>, segments: Vec<u32>, args: Vec<Type>| {
        let op = scene.structured(OpKind::CfNDFor, vec![], operands, segments, vec![args]);
        scene.yield_in(op, 0, vec![]);
        verify_op(&scene.ctx, op)
    };
    let index = Type::Index;
    let uncounted = Err(VerifyErr::NDFor(NDForOpVerifyErr::IterArgsCountMismatch));
    let mistyped = Err(VerifyErr::NDFor(NDForOpVerifyErr::InductionVarTypeMismatch));
    assert_eq!(check(&mut scene, vec![i; 6], vec![2, 2, 2], vec![index; 2]), Ok(()));
    assert_eq!(
        check(&mut scene, vec![i; 4], vec![2, 2], vec![index; 2]),
        Err(VerifyErr::NDFor(NDForOpVerifyErr::SegmentCountMismatch))
    );
    assert_eq!(check(&mut scene, vec![i; 5], vec![2, 2, 1], vec![index; 2]), uncounted);
    assert_eq!(check(&mut scene, vec![], vec![0, 0, 0], vec![]), uncounted);
    assert_eq!(check(&mut scene, vec![i, i, n], vec![1, 1, 1], vec![index]), mistyped);
    assert_eq!(
        check(&mut scene, vec![i; 5], vec![2, 2, 2], vec![index; 2]),
        Err(VerifyErr::SegmentTotal)
    );
    // The body takes one index for each of the dimensions.
    assert_eq!(check(&mut scene, vec![i; 6], vec![2, 2, 2], vec![]), uncounted);
    assert_eq!(check(&mut scene, vec![i; 6], vec![2, 2, 2], vec![index]), uncounted);
    assert_eq!(check(&mut scene, vec![i; 6], vec![2, 2, 2], vec![index; 3]), uncounted);
    assert_eq!(check(&mut scene, vec![i; 3], vec![1, 1, 1], vec![Type::i64()]), mistyped);
    assert_eq!(check(&mut scene, vec![i; 6], vec![2, 2, 2], vec![index, Type::i64()]), mistyped);
}

#[test]
fn nd_loop_has_no_results() {
    let mut scene = Scene::new();
    let i = scene.value(Type::Index, None);
    let x = scene.value(FP32, None);
    let kind = OpKind::CfNDFor;
    let args = vec![vec![Type::Index]];
    let op = scene.structured(kind, vec![FP32], vec![i; 3], vec![1, 1, 1], args.clone());
    scene.yield_in(op, 0, vec![x]);
    assert_eq!(verify_op(&scene.ctx, op), Err(VerifyErr::NumResults));
    let op = scene.structured(kind, vec![], vec![i; 3], vec![1, 1, 1], args);
    scene.yield_in(op, 0, vec![]);
    assert_eq!(verify_op(&scene.ctx, op), Ok(()));
}

#[test]
fn regions_must_yield() {
    let mut scene = Scene::new();
    let kind = OpKind::CfExecuteRegion;
    let bare = scene.ctx.create_op(kind, vec![], vec![], vec![], 1, vec![]);
    assert_eq!(
        verify_op(&scene.ctx, bare),
        Err(VerifyErr::YieldingRegions(YieldingRegionsVerifyErr::RegionEmpty))
    );
    let open = scene.structured(kind, vec![], vec![], vec![], vec![vec![]]);
    assert_eq!(verify_op(&scene.ctx, open), Err(VerifyErr::MissingTerminator));
    let looping = scene.structured(kind, vec![], vec![], vec![], vec![vec![]]);
    let body = scene.ctx.blocks(scene.ctx.regions(looping)[0])[0];
    let back = BrOp::new(&mut scene.ctx, body, vec![]).op;
    scene.ctx.insert_op(back, OpInsertionPoint::AtBlockEnd(body));
    assert_eq!(
        verify_op(&scene.ctx, looping),
        Err(VerifyErr::YieldingRegions(YieldingRegionsVerifyErr::LastOpNotYield))
    );
    let two = scene.structured(kind, vec![], vec![], vec![], vec![vec![], vec![]]);
    scene.yield_in(two, 0, vec![]);
    scene.yield_in(two, 1, vec![]);
    assert_eq!(verify_op(&scene.ctx, two), Err(VerifyErr::NumRegions));
    let taking = scene.structured(kind, vec![], vec![], vec![], vec![vec![FP32]]);
    scene.yield_in(taking, 0, vec![]);
    assert_eq!(
        verify_op(&scene.ctx, taking),
        Err(VerifyErr::ExecuteRegion(ExecuteRegionOpVerifyErr::RegionHasArguments))
    );
    // A block that is not the exit block, and ends with a `yield`, is no branch either.
    let early = scene.structured(kind, vec![], vec![], vec![], vec![vec![]]);
    scene.yield_in(early, 0, vec![]);
    let region = scene.ctx.regions(early)[0];
    scene.ctx.create_block(BlockInsertionPoint::AtRegionEnd(region), None, vec![]);
    scene.yield_in(early, 0, vec![]);
    assert_eq!(
        verify_op(&scene.ctx, early),
        Err(VerifyErr::YieldingRegions(YieldingRegionsVerifyErr::NonExitBlockBadTerminator))
    );
}

#[test]
fn choices_are_checked() {
    let mut scene = Scene::new();
    let c = scene.value(Type::i1(), None);
    let n = scene.value(Type::i64(), None);
    let x = scene.value(FP32, None);
    let kind = OpKind::CfIf;
    let wrong = scene.structured(kind, vec![], vec![n], vec![], vec![vec![]]);
    scene.yield_in(wrong, 0, vec![]);
    assert_eq!(
        verify_op(&scene.ctx, wrong),
        Err(VerifyErr::If(IfOpVerifyErr::IncorrectConditionType))
    );
    let taking = scene.structured(kind, vec![], vec![c], vec![], vec![vec![], vec![FP32]]);
    scene.yield_in(taking, 0, vec![]);
    scene.yield_in(taking, 1, vec![]);
    assert_eq!(
        verify_op(&scene.ctx, taking),
        Err(VerifyErr::If(IfOpVerifyErr::RegionHasArguments))
    );
    let lacking = scene.structured(kind, vec![FP32], vec![c], vec![], vec![vec![]]);
    scene.yield_in(lacking, 0, vec![x]);
    assert_eq!(
        verify_op(&scene.ctx, lacking),
        Err(VerifyErr::If(IfOpVerifyErr::MissingElseRegion))
    );
    let full = scene.structured(kind, vec![FP32], vec![c], vec![], vec![vec![], vec![]]);
    scene.yield_in(full, 0, vec![x]);
    scene.yield_in(full, 1, vec![x]);
    assert_eq!(verify_op(&scene.ctx, full), Ok(()));
    let none = scene.structured(kind, vec![], vec![c], vec![], vec![]);
    assert_eq!(verify_op(&scene.ctx, none), Err(VerifyErr::NumRegions));
}

#[test]
fn nd_for_must_be_written_without_results() {
    let mut scene = Scene::new();
    let i = scene.value(Type::Index, None);
    let names = vec!["r".to_string()];
    let made = NDForOp::build(&mut scene.ctx, &names, vec![i], vec![i], vec![i]);
    assert_eq!(made, Err(NDForOpParseErr::NoResultsAllowed));
    let made = NDForOp::build(&mut scene.ctx, &vec![], vec![i], vec![i], vec![i]);
    assert_eq!(made.unwrap().get_steps(&scene.ctx), vec![i]);
}

#[test]
fn cond_br_must_be_written_without_results() {
    let mut scene = Scene::new();
    let c = scene.value(Type::i1(), None);
    let dest = scene.block(vec![]);
    let names = vec!["a".to_string(), "b".to_string()];
    let made = CondBrOp::build(&mut scene.ctx, &names, c, dest, vec![], dest, vec![]);
    assert_eq!(made.unwrap_err().found, 2);
    let made = CondBrOp::build(&mut scene.ctx, &vec![], c, dest, vec![], dest, vec![]);
    assert_eq!(made.unwrap().get_operand_condition(&scene.ctx), c);
}

#[test]
fn errors_say_what_is_wrong() {
    assert_eq!(YieldingRegionsVerifyErr::RegionEmpty.message(), "Region is empty");
    assert_eq!(
        YieldingRegionsVerifyErr::LastOpNotYield.message(),
        "Last operation in exit block is not a YieldingOp"
    );
    assert_eq!(
        YieldingRegionsVerifyErr::NonExitBlockBadTerminator.message(),
        "Terminator of a non-exit block must implement BranchOpInterface"
    );
    assert_eq!(
        YieldOpVerifyErr::OperandTypeMismatch.message(),
        "YieldOp operand types do not match parent operation result types"
    );
    assert_eq!(
        YieldOpVerifyErr::MissingParentOp.message(),
        "YieldOp must have a parent operation to verify against"
    );
    assert_eq!(
        CondBrOpVerifyErr::IncorrectConditionType.message(),
        "CondBrOp condition operand must be a signless 1-bit integer (i1)"
    );
    assert_eq!(
        ForOpVerifyErr::IterArgsCountMismatch.message(),
        "ForOp count mismatch: iter args initializers, number of results, loop carried variables"
    );
    assert_eq!(
        ForOpVerifyErr::InductionVarTypeMismatch.message(),
        "ForOp induction variable, lower bound, upper bound, and step types must all be IndexType"
    );
    assert_eq!(
        ForOpVerifyErr::IterArgsTypeMismatch.message(),
        "ForOp result types, iter args initializers, and loop carried variable types must match"
    );
    assert_eq!(
        NDForOpParseErr::NoResultsAllowed.message(),
        "NDForOp must not have any results"
    );
    assert_eq!(
        NDForOpVerifyErr::SegmentCountMismatch.message(),
        "NDForOp must have exactly 3 segments corresponding to lower bounds, upper bounds, and steps"
    );
    assert_eq!(
        NDForOpVerifyErr::IterArgsCountMismatch.message(),
        "NDForOp count mismatch: lower bounds, upper bounds, and steps must all have the same number of operands"
    );
    assert_eq!(
        NDForOpVerifyErr::InductionVarTypeMismatch.message(),
        "NDForOp induction variables, lower bounds, upper bounds, and steps must all be of IndexType"
    );
    assert_eq!(
        ExecuteRegionOpVerifyErr::RegionHasArguments.message(),
        "ExecuteRegionOp's region must not take any arguments"
    );
    assert_eq!(
        IfOpVerifyErr::IncorrectConditionType.message(),
        "IfOp condition operand must be a signless 1-bit integer (i1)"
    );
    assert_eq!(
        IfOpVerifyErr::RegionHasArguments.message(),
        "IfOp's regions must not take any arguments"
    );
    assert_eq!(
        IfOpVerifyErr::MissingElseRegion.message(),
        "IfOp with results must have an else region"
    );
    assert_eq!(
        ForOpConversionErr::UnsupportedIVType.message(),
        "Unsupported induction variable type for ForOp conversion"
    );
    assert_eq!(
        NDForOpConversionErr::UnsupportedIVType.message(),
        "Unsupported induction variable type for NDForOp conversion"
    );
}

#[test]
fn index_type_becomes_a_64_bit_integer() {
    let conversion = CFToLLVM;
    assert_eq!(IndexType::get(), Type::Index);
    assert!(conversion.can_convert_type(Type::Index));
    assert!(!conversion.can_convert_type(Type::i64()));
    assert!(!conversion.can_convert_type(FP32));
    let foreign = Type::Other(OtherType { id: 7, converts_to_llvm: true });
    assert!(conversion.can_convert_type(foreign));
    assert_eq!(conversion.convert_type(Type::Index), Type::i64());
}

#[test]
fn only_operations_with_a_lowering_are_converted() {
    let mut scene = Scene::new();
    let conversion = CFToLLVM;
    let y = YieldOp::new(&mut scene.ctx, vec![]).op;
    assert!(!conversion.can_convert_op(&scene.ctx, y));
    let dest = scene.block(vec![]);
    let br = BrOp::new(&mut scene.ctx, dest, vec![]).op;
    assert!(conversion.can_convert_op(&scene.ctx, br));
    let foreign = OtherOp { id: 9, terminator: false, branch: false, converts_to_llvm: true };
    let op = scene.ctx.create_op(OpKind::Other(foreign), vec![], vec![], vec![], 0, vec![]);
    assert!(conversion.can_convert_op(&scene.ctx, op));
}

#[test]
fn segments_are_there_if_their_operands_are() {
    let mut scene = Scene::new();
    let x = scene.value(FP32, None);
    let ctx = &mut scene.ctx;
    let op = ctx.create_op(other(3), vec![], vec![x, x], vec![], 0, vec![1, 1, 1]);
    assert!(ctx.has_segment(op, 0));
    assert!(ctx.has_segment(op, 1));
    assert!(!ctx.has_segment(op, 2));
    assert!(!ctx.has_segment(op, 3));
    assert_eq!(ctx.get_segment(op, 1), vec![x]);
    assert_eq!(ctx.segment_size(op, 2), 1);
    assert_eq!(ctx.segment_size(op, 3), 0);
}

#[test]
fn checks_need_what_they_look_at() {
    let mut scene = Scene::new();
    let i = scene.value(Type::Index, None);
    let x = scene.value(FP32, None);
    let c = scene.value(Type::i1(), None);
    // A loop without induction variable cannot be checked, unless its counts differ anyway.
    let bare = scene.structured(OpKind::CfFor, vec![], vec![i, i, i], vec![3, 0], vec![vec![]]);
    scene.yield_in(bare, 0, vec![]);
    assert!(!can_verify_op(&scene.ctx, bare));
    let uneven =
        scene.structured(OpKind::CfFor, vec![], vec![i, i, i, x], vec![3, 1], vec![vec![]]);
    scene.yield_in(uneven, 0, vec![]);
    assert!(can_verify_op(&scene.ctx, uneven));
    assert_eq!(
        verify_op(&scene.ctx, uneven),
        Err(VerifyErr::For(ForOpVerifyErr::IterArgsCountMismatch))
    );
    let index = vec![vec![Type::Index]];
    let two = scene.structured(OpKind::CfFor, vec![], vec![i, i], vec![2, 0], index);
    scene.yield_in(two, 0, vec![]);
    assert!(!can_verify_op(&scene.ctx, two));
    let blind = scene.structured(OpKind::CfIf, vec![], vec![], vec![], vec![vec![]]);
    scene.yield_in(blind, 0, vec![]);
    assert!(!can_verify_op(&scene.ctx, blind));
    let seeing = scene.structured(OpKind::CfIf, vec![], vec![c], vec![], vec![vec![]]);
    scene.yield_in(seeing, 0, vec![]);
    assert!(can_verify_op(&scene.ctx, seeing));
}

#[test]
fn lowering_needs_a_place_and_a_yield() {
    let mut scene = Scene::new();
    let conversion = CFToLLVM;
    let i = scene.value(Type::Index, None);
    let args = vec![vec![Type::Index]];
    let whole = scene.structured(OpKind::CfFor, vec![], vec![i, i, i], vec![3, 0], args.clone());
    assert!(!conversion.can_rewrite(&scene.ctx, whole));
    scene.yield_in(whole, 0, vec![]);
    assert!(conversion.can_rewrite(&scene.ctx, whole));
    let dest = scene.block(vec![]);
    let loose = BrOp::new(&mut scene.ctx, dest, vec![]).op;
    assert!(!conversion.can_rewrite(&scene.ctx, loose));
    scene.place(loose);
    assert!(conversion.can_rewrite(&scene.ctx, loose));
    let flat = scene.structured(OpKind::CfNDFor, vec![], vec![], vec![0, 0, 0], vec![vec![]]);
    scene.yield_in(flat, 0, vec![]);
    assert!(!conversion.can_rewrite(&scene.ctx, flat));
    let line = scene.structured(OpKind::CfNDFor, vec![], vec![i, i, i], vec![1, 1, 1], args);
    scene.yield_in(line, 0, vec![]);
    assert!(conversion.can_rewrite(&scene.ctx, line));
    let foreign = scene.ctx.create_op(other(4), vec![], vec![], vec![], 0, vec![]);
    assert!(!conversion.can_rewrite(&scene.ctx, foreign));
}

#[test]
fn regions_of_several_blocks_branch_to_their_end() {
    let mut scene = Scene::new();
    let build = |scene: &mut Scene, branch: bool| {
        let this = ExecuteRegionOp::new(
            &mut scene.ctx,
            vec![FP32],
            |ctx: &mut Context, branch: bool, inserter: &mut IRRewriter| {
                let make = ctx.create_op(other(2), vec![FP32], vec![], vec![], 0, vec![]);
                inserter.insert_op(ctx, make);
                let value = Value::OpResult { op: make, idx: 0 };
                let entry = ctx.parent_block(make).unwrap();
                let point = BlockInsertionPoint::AfterBlock(entry);
                let last = ctx.create_block(point, None, vec![FP32]);
                let end = if branch {
                    BrOp::new(ctx, last, vec![value]).op
                } else {
                    YieldOp::new(ctx, vec![value]).op
                };
                ctx.insert_op(end, OpInsertionPoint::AtBlockEnd(entry));
                vec![Value::BlockArgument { block: last, idx: 0 }]
            },
            branch,
        );
        scene.place(this.op);
        this.op
    };
    let branching = build(&mut scene, true);
    assert_eq!(scene.ctx.blocks(scene.ctx.regions(branching)[0]).len(), 2);
    assert_eq!(verify_op(&scene.ctx, branching), Ok(()));
    let straying = build(&mut scene, false);
    assert_eq!(
        verify_op(&scene.ctx, straying),
        Err(VerifyErr::YieldingRegions(YieldingRegionsVerifyErr::NonExitBlockBadTerminator))
    );
}

#[test]
fn operations_of_other_dialects_are_handed_on() {
    let mut scene = Scene::new();
    let kind = OpKind::Other(OtherOp {
        id: 9,
        terminator: false,
        branch: false,
        converts_to_llvm: true,
    });
    let foreign = scene.ctx.create_op(kind, vec![], vec![], vec![], 0, vec![]);
    scene.place(foreign);
    let dest = scene.block(vec![]);
    let own = BrOp::new(&mut scene.ctx, dest, vec![]).op;
    scene.place(own);
    let mut rewriter = IRRewriter::new(OpInsertionPoint::BeforeOperation(foreign));
    let refuse = |ctx: &mut Context, _: &mut IRRewriter, op: OpId| {
        ctx.erase_op(op);
        Err::<(), u32>(17)
    };
    let result = CFToLLVM.rewrite_any(&mut scene.ctx, &mut rewriter, foreign, refuse);
    assert_eq!(result, Err(17));
    assert!(!scene.ctx.has_op(foreign));
    rewriter.set_insertion_point(OpInsertionPoint::BeforeOperation(own));
    let result = CFToLLVM.rewrite_any(&mut scene.ctx, &mut rewriter, own, refuse);
    assert_eq!(result, Ok(()));
    assert!(!scene.ctx.has_op(own));
    let last = *scene.ctx.ops(scene.block).last().unwrap();
    assert_eq!(scene.ctx.kind(last), OpKind::LlvmBr);
}

/// Makes a loop, in a block, whose builder branches to a block that it adds, if it is to.
fn made_loop(scene: &mut Scene, bounds: [Value; 3], adds_block: bool) -> OpId {
    let this = ForOp::new(
        &mut scene.ctx,
        bounds[0],
        bounds[1],
        bounds[2],
        &vec![],
        |ctx: &mut Context, adds: bool, _: &mut IRRewriter, iv: Value, _: &[Value]| {
            if adds {
                add_block(ctx, iv);
            }
            vec![]
        },
        adds_block,
    );
    scene.place(this.op);
    this.op
}

/// Makes a loop over several dimensions in the same way.
fn made_nd_loop(scene: &mut Scene, bounds: [Vec<Value>; 3], adds_block: bool) -> OpId {
    let [lower, upper, step] = bounds;
    let this = NDForOp::new(
        &mut scene.ctx,
        lower,
        upper,
        step,
        |ctx: &mut Context, adds: bool, _: &mut IRRewriter, indices: Vec<Value>| {
            if adds {
                add_block(ctx, indices[0]);
            }
        },
        adds_block,
    );
    scene.place(this.op);
    this.op
}

/// Branches from the block with the argument to a block that is added behind it.
fn add_block(ctx: &mut Context, argument: Value) {
    let Value::BlockArgument { block, .. } = argument else { panic!("no argument") };
    let next = ctx.create_block(BlockInsertionPoint::AfterBlock(block), None, vec![]);
    let br = BrOp::new(ctx, next, vec![]).op;
    ctx.insert_op(br, OpInsertionPoint::AtBlockEnd(block));
}

#[test]
fn made_loops_pass_if_their_bounds_are_indices_and_their_body_is_one_block() {
    let mut scene = Scene::new();
    let index = scene.value(Type::Index, None);
    let number = scene.value(Type::i64(), None);
    let op = made_loop(&mut scene, [index, index, index], false);
    assert_eq!(verify_op(&scene.ctx, op), Ok(()));
    let mismatch = Err(VerifyErr::For(ForOpVerifyErr::InductionVarTypeMismatch));
    for bounds in [[number, index, index], [index, number, index], [index, index, number]] {
        let op = made_loop(&mut scene, bounds, false);
        assert_eq!(verify_op(&scene.ctx, op), mismatch);
    }
    for bounds in [[index, index, index], [number, index, index]] {
        let op = made_loop(&mut scene, bounds, true);
        assert_eq!(verify_op(&scene.ctx, op), Err(VerifyErr::SingleBlockRegion));
    }
}

#[test]
fn made_nd_loops_pass_if_their_bounds_are_indices_and_their_body_is_one_block() {
    let mut scene = Scene::new();
    let index = scene.value(Type::Index, None);
    let number = scene.value(Type::i64(), None);
    let all = || vec![index, index];
    let op = made_nd_loop(&mut scene, [all(), all(), all()], false);
    assert_eq!(verify_op(&scene.ctx, op), Ok(()));
    let mixed = || vec![index, number];
    let mismatch = Err(VerifyErr::NDFor(NDForOpVerifyErr::InductionVarTypeMismatch));
    for bounds in [[mixed(), all(), all()], [all(), mixed(), all()], [all(), all(), mixed()]] {
        let op = made_nd_loop(&mut scene, bounds, false);
        assert_eq!(verify_op(&scene.ctx, op), mismatch);
    }
    let op = made_nd_loop(&mut scene, [vec![], vec![], vec![]], false);
    let none = Err(VerifyErr::NDFor(NDForOpVerifyErr::IterArgsCountMismatch));
    assert_eq!(verify_op(&scene.ctx, op), none);
    let op = made_nd_loop(&mut scene, [all(), all(), all()], true);
    assert_eq!(verify_op(&scene.ctx, op), Err(VerifyErr::SingleBlockRegion));
}

#[test]
fn regions_are_checked_one_by_one() {
    let mut scene = Scene::new();
    let condition = scene.value(Type::i1(), None);
    let op = scene.structured(
        OpKind::CfIf,
        vec![],
        vec![condition],
        vec![],
        vec![vec![], vec![]],
    );
    let this = IfOp { op };
    scene.yield_in(op, 0, vec![]);
    let region = scene.ctx.regions(op)[1];
    let block = scene.ctx.blocks(region)[0];
    let back = BrOp::new(&mut scene.ctx, block, vec![]).op;
    scene.ctx.insert_op(back, OpInsertionPoint::AtBlockEnd(block));
    let check = |ctx: &Context, i: usize| {
        YieldingRegions::<YieldOp>::verify_region(&this, ctx, i)
    };
    assert_eq!(check(&scene.ctx, 0), Ok(()));
    assert_eq!(check(&scene.ctx, 1), Err(YieldingRegionsVerifyErr::LastOpNotYield));
    // What is found first decides, whatever comes behind it.
    let early = scene.ctx.create_op(OpKind::CfIf, vec![], vec![condition], vec![], 1, vec![]);
    let this = IfOp { op: early };
    let found = YieldingRegions::<YieldOp>::verify_region(&this, &scene.ctx, 0);
    assert_eq!(found, Err(YieldingRegionsVerifyErr::RegionEmpty));
}
