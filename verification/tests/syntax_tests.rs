//! Reading and writing the operations.

use cf_dialect::cf::ops::{CondBrOp, ExecuteRegionOp, ForOp, IfOp, NDForOp, NDForOpParseErr};
use cf_dialect::cf::syntax::building::ResultsNotAllowed;
use cf_dialect::cf::syntax::grammar::Grammar;
use cf_dialect::cf::syntax::printing::OpTexts;
use cf_dialect::cf::syntax::reading::{
    CondBrSyntax, ForSyntax, NDForSyntax, TypeListStep, TypeListSyntax,
};
use cf_dialect::ir::context::Context;
use cf_dialect::ir::types::{BlockInsertionPoint, OpKind, OtherOp, Type, Value};

fn chars(text: &str) -> Vec<char> {
    text.chars().collect()
}

fn strings(names: &[&str]) -> Vec<String> {
    names.iter().map(|name| name.to_string()).collect()
}

#[test]
fn identifiers_begin_with_a_letter_or_an_underscore() {
    let read = |text: &str| Grammar::read_identifier(&chars(text), 0);
    assert_eq!(read("abc_9 d"), Some(("abc_9".to_string(), 5)));
    assert_eq!(read("_"), Some(("_".to_string(), 1)));
    assert_eq!(read("X-y"), Some(("X".to_string(), 1)));
    assert_eq!(read("9a"), None);
    assert_eq!(read(""), None);
    assert_eq!(read(" a"), None);
    assert_eq!(read("\u{e9}t\u{e9}"), None);
    assert_eq!(Grammar::read_identifier(&chars("xx yy"), 3), Some(("yy".to_string(), 5)));
}

#[test]
fn white_space_is_passed_over() {
    assert_eq!(Grammar::read_spaces(&chars(" \t\n\r\u{3000}x"), 0), 5);
    assert_eq!(Grammar::read_spaces(&chars("x "), 0), 0);
    assert_eq!(Grammar::read_spaces(&chars("x "), 1), 2);
    assert_eq!(Grammar::read_spaced(&chars("  to  b"), 0, "to"), Some(6));
    assert_eq!(Grammar::read_spaced(&chars("  tb"), 0, "to"), None);
    assert_eq!(Grammar::read_literal(&chars("step"), 0, "step"), Some(4));
    assert_eq!(Grammar::read_literal(&chars("ste"), 0, "step"), None);
    assert_eq!(Grammar::read_literal(&chars("xstep"), 1, "step"), Some(5));
}

#[test]
fn lists_are_read_between_their_brackets() {
    let read = |text: &str| Grammar::read_list(&chars(text), 0, '(', ')');
    assert_eq!(read("()"), Some((strings(&[]), 2)));
    assert_eq!(read("( )x"), Some((strings(&[]), 3)));
    assert_eq!(read("(a)"), Some((strings(&["a"]), 3)));
    assert_eq!(read("( a ,b , c )"), Some((strings(&["a", "b", "c"]), 12)));
    assert_eq!(read("(a,)"), None);
    assert_eq!(read("(a b)"), None);
    assert_eq!(read("(a"), None);
    assert_eq!(read("[a]"), None);
    assert_eq!(Grammar::write_joined(&strings(&["a", "b", "c"])), "a, b, c");
    assert_eq!(Grammar::write_joined(&strings(&["a"])), "a");
    assert_eq!(Grammar::write_joined(&strings(&[])), "");
}

#[test]
fn cond_br_is_read() {
    let text = chars("if c ^t(a, b) else ^f() ;");
    let (read, end) = CondBrSyntax::read(&text, 0).unwrap();
    assert_eq!(read.condition, "c");
    assert_eq!(read.true_dest, "t");
    assert_eq!(read.true_dest_opds, strings(&["a", "b"]));
    assert_eq!(read.false_dest, "f");
    assert_eq!(read.false_dest_opds, strings(&[]));
    assert_eq!(end, 23);
    let tight = CondBrSyntax::read(&chars("if c^t()else^f()"), 0).unwrap();
    assert_eq!(tight.1, 16);
    assert!(CondBrSyntax::read(&chars("if c ^t()"), 0).is_none());
    assert!(CondBrSyntax::read(&chars("c ^t() else ^f()"), 0).is_none());
    assert!(CondBrSyntax::read(&chars("if c t() else ^f()"), 0).is_none());
    assert!(CondBrSyntax::read(&chars("if c ^t else ^f()"), 0).is_none());
}

#[test]
fn for_is_read() {
    let text = chars("lb to ub step st (x, y) {");
    let (read, end) = ForSyntax::read(&text, 0).unwrap();
    assert_eq!(read.lower_bound, "lb");
    assert_eq!(read.upper_bound, "ub");
    assert_eq!(read.step, "st");
    assert_eq!(read.iter_args_init, strings(&["x", "y"]));
    assert_eq!(text[end], '{');
    let (none, end) = ForSyntax::read(&chars("a to b step c(){"), 0).unwrap();
    assert_eq!(none.iter_args_init, strings(&[]));
    assert_eq!(end, 15);
    assert!(ForSyntax::read(&chars("a to b step c {"), 0).is_none());
    assert!(ForSyntax::read(&chars("a b step c ()"), 0).is_none());
    assert!(ForSyntax::read(&chars("a to b c ()"), 0).is_none());
}

#[test]
fn nd_for_is_read() {
    let text = chars("[a, b] to [c, d] step [e, f] {");
    let (read, end) = NDForSyntax::read(&text, 0).unwrap();
    assert_eq!(read.lower_bounds, strings(&["a", "b"]));
    assert_eq!(read.upper_bounds, strings(&["c", "d"]));
    assert_eq!(read.steps, strings(&["e", "f"]));
    assert_eq!(text[end], '{');
    // How many there are of each is checked later.
    assert!(NDForSyntax::read(&chars("[a, b] to [] step [e]"), 0).is_some());
    assert!(NDForSyntax::read(&chars("(a) to [c] step [e]"), 0).is_none());
    assert!(NDForSyntax::read(&chars("[a] to [c]"), 0).is_none());
}

#[test]
fn type_lists_are_read_step_by_step() {
    let text = chars("-> (t1, t2) {");
    assert_eq!(TypeListSyntax::begin(&text, 0), TypeListStep::TypeAt(4));
    assert_eq!(TypeListSyntax::go_on(&text, 6), TypeListStep::TypeAt(8));
    assert_eq!(TypeListSyntax::go_on(&text, 10), TypeListStep::End(12));
    assert_eq!(TypeListSyntax::begin(&chars("-> () {"), 0), TypeListStep::End(6));
    assert_eq!(TypeListSyntax::begin(&chars("-> {"), 0), TypeListStep::Malformed);
    assert_eq!(TypeListSyntax::begin(&chars("(t)"), 0), TypeListStep::Malformed);
    assert_eq!(TypeListSyntax::go_on(&chars("t1 t2"), 2), TypeListStep::Malformed);
}

/// A context with `n` values in it.
fn scene(n: usize) -> (Context, Vec<Value>, usize) {
    let mut ctx = Context::new();
    let kind =
        OpKind::Other(OtherOp { id: 0, terminator: false, branch: false, converts_to_llvm: false });
    let top = ctx.create_op(kind, vec![Type::Index; n], vec![], vec![], 1, vec![]);
    let region = ctx.regions(top)[0];
    let block = ctx.create_block(BlockInsertionPoint::AtRegionStart(region), None, vec![]);
    let values = (0..n).map(|idx| Value::OpResult { op: top, idx }).collect();
    (ctx, values, block)
}

#[test]
fn for_is_read_as_it_is_written() {
    let (mut ctx, v, _) = scene(5);
    let this = ForOp::build(&mut ctx, v[0], v[1], v[2], vec![v[3], v[4]]);
    ctx.create_region(this.op);
    let texts = OpTexts {
        results: strings(&["r", "s"]),
        operands: strings(&["lb", "ub", "st", "x", "y"]),
        successors: vec![],
        result_types: strings(&["index", "index"]),
        regions: strings(&["{ }"]),
    };
    let text = this.fmt(&ctx, &texts);
    assert_eq!(text, "r, s = cf.for lb to ub step st (x, y) { }\n");
    let text = chars(&text);
    let start = "r, s = cf.for ".len();
    let (read, end) = ForSyntax::read(&text, start).unwrap();
    assert_eq!(read.lower_bound, "lb");
    assert_eq!(read.upper_bound, "ub");
    assert_eq!(read.step, "st");
    assert_eq!(read.iter_args_init, strings(&["x", "y"]));
    assert_eq!(text[end], '{');
    let bare = ForOp::build(&mut ctx, v[0], v[1], v[2], vec![]);
    ctx.create_region(bare.op);
    let texts = OpTexts {
        results: vec![],
        operands: strings(&["a", "b", "c"]),
        successors: vec![],
        result_types: vec![],
        regions: strings(&["{ }"]),
    };
    assert_eq!(bare.fmt(&ctx, &texts), "cf.for a to b step c () { }\n");
}

#[test]
fn nd_for_is_read_as_it_is_written() {
    let (mut ctx, v, _) = scene(2);
    let this = NDForOp::build(
        &mut ctx,
        &vec![],
        vec![v[0], v[0]],
        vec![v[1], v[1]],
        vec![v[0], v[1]],
    )
    .unwrap();
    ctx.create_region(this.op);
    let texts = OpTexts {
        results: vec![],
        operands: strings(&["a", "b", "c", "d", "e", "f"]),
        successors: vec![],
        result_types: vec![],
        regions: strings(&["{}"]),
    };
    let text = this.fmt(&ctx, &texts);
    assert_eq!(text, "cf.nd_for [a, b] to [c, d] step [e, f] {}\n");
    let (read, end) = NDForSyntax::read(&chars(&text), "cf.nd_for ".len()).unwrap();
    assert_eq!(read.lower_bounds, strings(&["a", "b"]));
    assert_eq!(read.upper_bounds, strings(&["c", "d"]));
    assert_eq!(read.steps, strings(&["e", "f"]));
    assert_eq!(chars(&text)[end], '{');
}

#[test]
fn cond_br_is_read_as_it_is_written() {
    let (mut ctx, v, block) = scene(3);
    let this = CondBrOp::new(&mut ctx, v[0], block, vec![v[1]], block, vec![v[1], v[2]]);
    let texts = OpTexts {
        results: vec![],
        operands: strings(&["c", "x", "x", "y"]),
        successors: strings(&["yes", "no"]),
        result_types: vec![],
        regions: vec![],
    };
    let text = this.fmt(&ctx, &texts);
    assert_eq!(text, "cf.cond_br if c ^yes(x) else ^no(x, y)");
    let (read, end) = CondBrSyntax::read(&chars(&text), "cf.cond_br ".len()).unwrap();
    assert_eq!(end, text.len());
    assert_eq!(read.condition, "c");
    assert_eq!(read.true_dest, "yes");
    assert_eq!(read.true_dest_opds, strings(&["x"]));
    assert_eq!(read.false_dest, "no");
    assert_eq!(read.false_dest_opds, strings(&["x", "y"]));
}

#[test]
fn regions_are_written_behind_the_result_types() {
    let (mut ctx, v, _) = scene(1);
    let region = ExecuteRegionOp::build(&mut ctx, vec![Type::Index, Type::i64()]);
    ctx.create_region(region.op);
    let texts = OpTexts {
        results: strings(&["a", "b"]),
        operands: vec![],
        successors: vec![],
        result_types: strings(&["index.index", "builtin.integer i64"]),
        regions: strings(&["{x}"]),
    };
    let text = region.fmt(&ctx, &texts);
    assert_eq!(
        text,
        "a, b = cf.execute_region -> (index.index, builtin.integer i64) {x}\n"
    );
    let text = chars(&text);
    let list = "a, b = cf.execute_region ".len();
    assert_eq!(TypeListSyntax::begin(&text, list), TypeListStep::TypeAt(list + 4));
    let choice = IfOp::build(&mut ctx, v[0], vec![]);
    ctx.create_region(choice.op);
    let mut texts = OpTexts {
        results: vec![],
        operands: strings(&["c"]),
        successors: vec![],
        result_types: vec![],
        regions: strings(&["{x}"]),
    };
    assert_eq!(choice.fmt(&ctx, &texts), "cf.if c -> () {x}\n");
    ctx.create_region(choice.op);
    texts.regions = strings(&["{x}", "{y}"]);
    assert_eq!(choice.fmt(&ctx, &texts), "cf.if c -> () {x} else {y}\n");
}

/// The values that the names stand for.
fn named(texts: &OpTexts, v: &[Value], names: &[String]) -> Vec<Value> {
    let find = |name: &String| texts.operands.iter().position(|text| text == name).unwrap();
    names.iter().map(|name| v[find(name)]).collect()
}

#[test]
fn what_was_written_is_built_again() {
    let (mut ctx, v, _) = scene(6);
    let mut texts = OpTexts {
        results: strings(&["r", "s"]),
        operands: strings(&["a", "b", "c", "d", "e"]),
        successors: vec![],
        result_types: strings(&["index", "index"]),
        regions: strings(&["{}"]),
    };
    let this = ForOp::build(&mut ctx, v[0], v[1], v[2], vec![v[3], v[4]]);
    ctx.create_region(this.op);
    let text = chars(&this.fmt(&ctx, &texts));
    let (read, _) = ForSyntax::read(&text, "r, s = cf.for ".len()).unwrap();
    let bounds = named(&texts, &v, &[read.lower_bound, read.upper_bound, read.step]);
    let inits = named(&texts, &v, &read.iter_args_init);
    let again = ForOp::build(&mut ctx, bounds[0], bounds[1], bounds[2], inits);
    assert_eq!(ctx.operands(again.op), ctx.operands(this.op));
    assert_eq!(ctx.segments(again.op), ctx.segments(this.op));
    assert_eq!(ctx.num_results(again.op), 2);

    texts.results = vec![];
    texts.result_types = vec![];
    texts.operands = strings(&["a", "b", "c", "d", "e", "f"]);
    let (lower, upper, step) = (vec![v[0], v[1]], vec![v[2], v[3]], vec![v[4], v[5]]);
    let this = NDForOp::build(&mut ctx, &vec![], lower, upper, step).unwrap();
    ctx.create_region(this.op);
    let text = chars(&this.fmt(&ctx, &texts));
    let (read, _) = NDForSyntax::read(&text, "cf.nd_for ".len()).unwrap();
    let again = NDForOp::build(
        &mut ctx,
        &vec![],
        named(&texts, &v, &read.lower_bounds),
        named(&texts, &v, &read.upper_bounds),
        named(&texts, &v, &read.steps),
    )
    .unwrap();
    assert_eq!(ctx.operands(again.op), ctx.operands(this.op));
    assert_eq!(ctx.segments(again.op), ctx.segments(this.op));

    // Types are read by the dialects that they are from; here, they are told by their texts.
    let types = [("index", Type::Index), ("i64", Type::i64())];
    let this = ExecuteRegionOp::build(&mut ctx, vec![types[1].1, types[0].1]);
    ctx.create_region(this.op);
    texts.results = strings(&["r", "s"]);
    texts.result_types = strings(&["i64", "index"]);
    texts.operands = vec![];
    let text = chars(&this.fmt(&ctx, &texts));
    let mut read = Vec::new();
    let mut step = TypeListSyntax::begin(&text, "r, s = cf.execute_region ".len());
    while let TypeListStep::TypeAt(at) = step {
        let rest: String = text[at..].iter().collect();
        let (name, ty) = types.iter().find(|(name, _)| rest.starts_with(name)).unwrap();
        read.push(*ty);
        step = TypeListSyntax::go_on(&text, at + name.len());
    }
    assert!(matches!(step, TypeListStep::End(end) if text[end] == '{'));
    let again = ExecuteRegionOp::build(&mut ctx, read);
    assert_eq!(ctx.num_results(again.op), 2);
    for idx in 0..2 {
        let ty = |op| ctx.type_of(Value::OpResult { op, idx });
        assert_eq!(ty(again.op), ty(this.op));
    }
}

#[test]
fn results_are_refused() {
    assert_eq!(NDForOp::refuse_results(&vec![]), Ok(()));
    let refused = NDForOp::refuse_results(&strings(&["r"]));
    assert_eq!(refused, Err(NDForOpParseErr::NoResultsAllowed));
    assert_eq!(CondBrOp::refuse_results(&vec![]), Ok(()));
    let refused = CondBrOp::refuse_results(&strings(&["r", "s"]));
    assert_eq!(refused, Err(ResultsNotAllowed { found: 2 }));
}

#[test]
fn operands_that_are_not_written_are_left_out() {
    let (mut ctx, v, block) = scene(6);
    let mut texts = OpTexts {
        results: vec![],
        operands: strings(&["a", "b", "c", "d", "e"]),
        successors: vec![],
        result_types: vec![],
        regions: strings(&["{}"]),
    };
    // A loop with a bound too many.
    let operands = vec![v[0], v[1], v[2], v[3], v[4]];
    let op = ctx.create_op(OpKind::CfFor, vec![], operands, vec![], 1, vec![4, 1]);
    let text = ForOp { op }.fmt(&ctx, &texts);
    assert_eq!(text, "cf.for a to b step c (e) {}\n");
    let (read, _) = ForSyntax::read(&chars(&text), "cf.for ".len()).unwrap();
    let bounds = named(&texts, &v, &[read.lower_bound, read.upper_bound, read.step]);
    let inits = named(&texts, &v, &read.iter_args_init);
    let again = ForOp::build(&mut ctx, bounds[0], bounds[1], bounds[2], inits);
    assert_eq!(ctx.operands(again.op), vec![v[0], v[1], v[2], v[4]]);
    assert_eq!(ctx.segments(again.op), vec![3, 1]);
    // A branch with a condition too many.
    texts.regions = vec![];
    texts.successors = strings(&["yes", "no"]);
    let operands = vec![v[0], v[1], v[2], v[3], v[4]];
    let kind = OpKind::CfCondBr;
    let op = ctx.create_op(kind, vec![], operands, vec![block, block], 0, vec![2, 1, 2]);
    let text = CondBrOp { op }.fmt(&ctx, &texts);
    assert_eq!(text, "cf.cond_br if a ^yes(c) else ^no(d, e)");
    let (read, _) = CondBrSyntax::read(&chars(&text), "cf.cond_br ".len()).unwrap();
    let condition = named(&texts, &v, &[read.condition])[0];
    let yes = named(&texts, &v, &read.true_dest_opds);
    let no = named(&texts, &v, &read.false_dest_opds);
    let again = CondBrOp::new(&mut ctx, condition, block, yes, block, no);
    assert_eq!(ctx.operands(again.op), vec![v[0], v[2], v[3], v[4]]);
    assert_eq!(ctx.segments(again.op), vec![1, 1, 2]);
}
