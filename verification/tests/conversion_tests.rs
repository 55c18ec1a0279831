//! Programs in their textual form are read, checked, lowered, written and run.

use std::collections::HashMap;

use cf_dialect::cf::op_interfaces::YieldingRegionsVerifyErr;
use cf_dialect::cf::ops::{
    BrOp, CondBrOp, ExecuteRegionOp, ForOp, IfOp, IfOpVerifyErr, NDForOp, YieldOp,
};
use cf_dialect::cf::syntax::building::name_results;
use cf_dialect::cf::syntax::grammar::Grammar;
use cf_dialect::cf::syntax::printing::OpTexts;
use cf_dialect::cf::syntax::reading::{
    CondBrSyntax, ForSyntax, NDForSyntax, TypeListStep, TypeListSyntax,
};
use cf_dialect::cf::to_llvm::CFToLLVM;
use cf_dialect::cf::verify::{verify_op, VerifyErr};
use cf_dialect::ir::context::Context;
use cf_dialect::ir::rewriter::IRRewriter;
use cf_dialect::ir::types::{
    BlockId, BlockInsertionPoint, ICmpPredicate, Location, OpId, OpInsertionPoint, OpKind, OtherOp,
    OtherType, RegionId, Type, Value,
};

const FP32: Type = Type::Other(OtherType { id: 1, converts_to_llvm: false });
const PTR: Type = Type::Other(OtherType { id: 2, converts_to_llvm: false });

/// The operations of other dialects that the programs use.
#[derive(Debug, Clone, Copy, PartialEq)]
enum Act {
    Module,
    Func,
    Index(u64),
    Integer(u64),
    Single(f32),
    FAdd,
    Alloca,
    Load,
    Store,
    Return,
    Switch,
}

struct Program {
    ctx: Context,
    acts: Vec<Act>,
    module: OpId,
}

// ----- Reading -----

struct Reader {
    s: Vec<char>,
    i: usize,
    ctx: Context,
    acts: Vec<Act>,
    values: HashMap<String, Value>,
    labels: HashMap<String, BlockId>,
}

impl Reader {
    fn spaces(&mut self) {
        self.i = Grammar::read_spaces(&self.s, self.i);
    }

    fn expect(&mut self, text: &str) {
        self.i = Grammar::read_spaced(&self.s, self.i, text)
            .unwrap_or_else(|| panic!("expected {} at {}", text, self.i));
    }

    fn identifier(&mut self) -> String {
        self.spaces();
        let (name, end) = Grammar::read_identifier(&self.s, self.i).expect("identifier");
        self.i = end;
        name
    }

    fn until(&mut self, stop: char) -> String {
        let mut text = String::new();
        while self.s[self.i] != stop {
            text.push(self.s[self.i]);
            self.i += 1;
        }
        text
    }

    fn value(&self, name: &str) -> Value {
        *self.values.get(name).unwrap_or_else(|| panic!("no value {}", name))
    }

    fn all_values(&self, names: &[String]) -> Vec<Value> {
        names.iter().map(|name| self.value(name)).collect()
    }

    fn read_value(&mut self) -> Value {
        let name = self.identifier();
        self.value(&name)
    }

    fn line(&self, at: usize) -> u64 {
        1 + self.s[..at].iter().filter(|c| **c == '\n').count() as u64
    }

    fn read_type(&mut self) -> Type {
        self.spaces();
        let forms: [(&str, Type); 5] = [
            ("index.index", Type::Index),
            ("builtin.fp32", FP32),
            ("builtin.integer i64", Type::i64()),
            ("builtin.integer i1", Type::i1()),
            ("llvm.ptr(0)", PTR),
        ];
        for (text, ty) in forms {
            if let Some(end) = Grammar::read_literal(&self.s, self.i, text) {
                self.i = end;
                return ty;
            }
        }
        panic!("no type at {}", self.i);
    }

    fn read_type_list(&mut self) -> Vec<Type> {
        let mut types = Vec::new();
        let mut step = TypeListSyntax::begin(&self.s, self.i);
        loop {
            match step {
                TypeListStep::TypeAt(at) => {
                    self.i = at;
                    types.push(self.read_type());
                    step = TypeListSyntax::go_on(&self.s, self.i);
                }
                TypeListStep::End(end) => {
                    self.i = end;
                    return types;
                }
                TypeListStep::Malformed => panic!("no list of types at {}", self.i),
            }
        }
    }

    /// Is there the head of a block, `^label(..):`, at `i`?
    fn is_block_head(&self, i: usize) -> bool {
        if self.s[i] != '^' {
            return false;
        }
        let mut j = i;
        while self.s[j] != ')' {
            j += 1;
        }
        self.s[Grammar::read_spaces(&self.s, j + 1)] == ':'
    }

    fn other(&mut self, act: Act, types: Vec<Type>, operands: Vec<Value>, regions: usize) -> OpId {
        let id = self.acts.len() as u64;
        self.acts.push(act);
        let constant = matches!(act, Act::Index(_) | Act::Integer(_) | Act::Single(_));
        let other = OtherOp {
            id,
            terminator: act == Act::Return,
            branch: false,
            converts_to_llvm: constant,
        };
        self.ctx.create_op(OpKind::Other(other), types, operands, Vec::new(), regions, Vec::new())
    }

    /// Reads a region, in braces, of an operation.
    fn region(&mut self, region: RegionId) {
        self.expect("{");
        let outer_values = self.values.clone();
        let outer_labels = self.labels.clone();
        // The blocks come first: branches may lead to blocks further down.
        let mut heads: Vec<BlockId> = Vec::new();
        let (mut j, mut depth) = (self.i, 0);
        while depth >= 0 {
            match self.s[j] {
                '{' => depth += 1,
                '}' => depth -= 1,
                '^' if depth == 0 && self.is_block_head(j) => {
                    let back = self.i;
                    self.i = j + 1;
                    heads.push(self.block_head(region, j));
                    j = self.i - 1;
                    self.i = back;
                }
                _ => {}
            }
            j += 1;
        }
        for block in heads {
            self.until(')');
            self.expect(")");
            self.expect(":");
            while self.s[self.i] != '}' && !self.is_block_head(self.i) {
                self.operation(Some(block));
                self.spaces();
                if self.s[self.i] == ';' {
                    self.expect(";");
                }
            }
        }
        self.expect("}");
        self.values = outer_values;
        self.labels = outer_labels;
    }

    fn block_head(&mut self, region: RegionId, at: usize) -> BlockId {
        let label = self.identifier();
        self.expect("(");
        let (mut names, mut types) = (Vec::new(), Vec::new());
        while self.s[self.i] != ')' {
            names.push(self.identifier());
            self.expect(":");
            types.push(self.read_type());
            self.spaces();
            if self.s[self.i] == ',' {
                self.expect(",");
            }
        }
        let point = BlockInsertionPoint::AtRegionEnd(region);
        let block = self.ctx.create_block(point, Some(label.clone()), types);
        let line = self.line(at);
        self.ctx.locate_block(block, Location::Known(line));
        for (idx, name) in names.into_iter().enumerate() {
            self.ctx.name_argument(block, idx, name.clone());
            self.values.insert(name, Value::BlockArgument { block, idx });
        }
        self.labels.insert(label, block);
        block
    }

    /// Reads an operation, and puts it at the end of a block.
    fn operation(&mut self, block: Option<BlockId>) -> OpId {
        self.spaces();
        let start = self.i;
        let mut results: Vec<String> = Vec::new();
        if let Some((names, end)) = Grammar::read_identifiers(&self.s, self.i) {
            if self.s[end] == '=' {
                results = names;
                self.i = end;
                self.expect("=");
            }
        }
        let mut name = String::new();
        while !self.s[self.i].is_whitespace() {
            name.push(self.s[self.i]);
            self.i += 1;
        }
        self.spaces();
        let op = self.body(&name, &results);
        if !results.is_empty() {
            name_results(&mut self.ctx, op, &results);
        }
        let line = self.line(start);
        self.ctx.locate_op(op, Location::Known(line));
        if let Some(block) = block {
            self.ctx.insert_op(op, OpInsertionPoint::AtBlockEnd(block));
        }
        for (idx, name) in results.into_iter().enumerate() {
            self.values.insert(name, Value::OpResult { op, idx });
        }
        op
    }

    fn body(&mut self, name: &str, results: &Vec<String>) -> OpId {
        match name {
            "builtin.module" => {
                self.until('{');
                let op = self.other(Act::Module, Vec::new(), Vec::new(), 1);
                self.region(self.ctx.regions(op)[0]);
                op
            }
            "llvm.func" => {
                self.until('{');
                let op = self.other(Act::Func, Vec::new(), Vec::new(), 1);
                self.region(self.ctx.regions(op)[0]);
                op
            }
            "index.constant" => {
                self.expect("<index.constant");
                let n: u64 = self.until('>').parse().unwrap();
                self.expect(">");
                self.expect(":");
                let ty = self.read_type();
                self.other(Act::Index(n), vec![ty], Vec::new(), 0)
            }
            "builtin.constant" => {
                let act = if let Some(i) =
                    Grammar::read_spaced(&self.s, self.i, "<builtin.single")
                {
                    self.i = i;
                    Act::Single(self.until('>').parse().unwrap())
                } else {
                    self.expect("<builtin.integer <");
                    let n: u64 = self.until(':').parse().unwrap();
                    self.until('>');
                    self.expect(">");
                    Act::Integer(n)
                };
                self.expect(">");
                self.expect(":");
                let ty = self.read_type();
                self.other(act, vec![ty], Vec::new(), 0)
            }
            "llvm.fadd" => {
                self.expect("<FAST>");
                let a = self.read_value();
                self.expect(",");
                let b = self.read_value();
                self.expect(":");
                let ty = self.read_type();
                self.other(Act::FAdd, vec![ty], vec![a, b], 0)
            }
            "llvm.icmp" => {
                let a = self.read_value();
                self.expect("<");
                let pred = match self.until('>').as_str() {
                    "ULT" => ICmpPredicate::ULT,
                    "UGT" => ICmpPredicate::UGT,
                    other => panic!("no predicate {}", other),
                };
                self.expect(">");
                let b = self.read_value();
                self.expect(":");
                let ty = self.read_type();
                let kind = OpKind::LlvmICmp(pred);
                self.ctx.create_op(kind, vec![ty], vec![a, b], Vec::new(), 0, Vec::new())
            }
            "llvm.alloca" => {
                self.expect("[");
                self.read_type();
                self.expect("x");
                let n = self.read_value();
                self.expect("]");
                self.expect(":");
                let ty = self.read_type();
                self.other(Act::Alloca, vec![ty], vec![n], 0)
            }
            "llvm.load" => {
                let p = self.read_value();
                self.expect(":");
                let ty = self.read_type();
                self.other(Act::Load, vec![ty], vec![p], 0)
            }
            "llvm.store" => {
                self.expect("*");
                let p = self.read_value();
                self.expect("<-");
                let v = self.read_value();
                self.other(Act::Store, Vec::new(), vec![p, v], 0)
            }
            "llvm.return" => {
                let v = self.read_value();
                self.other(Act::Return, Vec::new(), vec![v], 0)
            }
            "test.switch" => {
                let mut operands = vec![self.read_value()];
                let (mut dests, mut sizes) = (Vec::new(), vec![1]);
                self.spaces();
                while self.s[self.i] == '^' && !self.is_block_head(self.i) {
                    let (dest, opds, end) = Grammar::read_destination(&self.s, self.i).unwrap();
                    self.i = end;
                    self.spaces();
                    dests.push(self.labels[&dest]);
                    sizes.push(opds.len() as u32);
                    operands.extend(self.all_values(&opds));
                }
                let id = self.acts.len() as u64;
                self.acts.push(Act::Switch);
                let other =
                    OtherOp { id, terminator: true, branch: true, converts_to_llvm: false };
                self.ctx.create_op(OpKind::Other(other), vec![], operands, dests, 0, sizes)
            }
            "cf.yield" => {
                let operands = match Grammar::read_identifiers(&self.s, self.i) {
                    Some((names, end)) => {
                        self.i = end;
                        self.all_values(&names)
                    }
                    None => Vec::new(),
                };
                YieldOp::new(&mut self.ctx, operands).op
            }
            "cf.br" => {
                let (dest, opds, end) = Grammar::read_destination(&self.s, self.i).unwrap();
                self.i = end;
                let opds = self.all_values(&opds);
                let dest = self.labels[&dest];
                BrOp::new(&mut self.ctx, dest, opds).op
            }
            "cf.cond_br" => {
                let (read, end) = CondBrSyntax::read(&self.s, self.i).unwrap();
                self.i = end;
                let condition = self.value(&read.condition);
                let true_dest_opds = self.all_values(&read.true_dest_opds);
                let false_dest_opds = self.all_values(&read.false_dest_opds);
                CondBrOp::build(
                    &mut self.ctx,
                    results,
                    condition,
                    self.labels[&read.true_dest],
                    true_dest_opds,
                    self.labels[&read.false_dest],
                    false_dest_opds,
                )
                .unwrap()
                .op
            }
            "cf.for" => {
                let (read, end) = ForSyntax::read(&self.s, self.i).unwrap();
                self.i = end;
                let lower_bound = self.value(&read.lower_bound);
                let upper_bound = self.value(&read.upper_bound);
                let step = self.value(&read.step);
                let inits = self.all_values(&read.iter_args_init);
                let op = ForOp::build(&mut self.ctx, lower_bound, upper_bound, step, inits).op;
                let region = self.ctx.create_region(op);
                self.region(region);
                op
            }
            "cf.nd_for" => {
                let (read, end) = NDForSyntax::read(&self.s, self.i).unwrap();
                self.i = end;
                let lower_bounds = self.all_values(&read.lower_bounds);
                let upper_bounds = self.all_values(&read.upper_bounds);
                let steps = self.all_values(&read.steps);
                let op = NDForOp::build(&mut self.ctx, results, lower_bounds, upper_bounds, steps)
                    .unwrap()
                    .op;
                let region = self.ctx.create_region(op);
                self.region(region);
                op
            }
            "cf.execute_region" => {
                let types = self.read_type_list();
                let op = ExecuteRegionOp::build(&mut self.ctx, types).op;
                let region = self.ctx.create_region(op);
                self.region(region);
                op
            }
            "cf.if" => {
                let condition = self.read_value();
                let types = self.read_type_list();
                let op = IfOp::build(&mut self.ctx, condition, types).op;
                let region = self.ctx.create_region(op);
                self.region(region);
                if let Some(end) = Grammar::read_spaced(&self.s, self.i, "else") {
                    self.i = end;
                    let region = self.ctx.create_region(op);
                    self.region(region);
                }
                op
            }
            other => panic!("no operation {}", other),
        }
    }
}

fn read(text: &str) -> Program {
    let mut reader = Reader {
        s: text.chars().collect(),
        i: 0,
        ctx: Context::new(),
        acts: Vec::new(),
        values: HashMap::new(),
        labels: HashMap::new(),
    };
    let module = reader.operation(None);
    Program { ctx: reader.ctx, acts: reader.acts, module }
}

// ----- Checking -----

/// Checks what is in the regions of an operation, then the operation itself.
fn verify(program: &Program, op: OpId) -> Result<(), VerifyErr> {
    for region in program.ctx.regions(op) {
        for block in program.ctx.blocks(region) {
            for inner in program.ctx.ops(block) {
                verify(program, inner)?;
            }
        }
    }
    verify_op(&program.ctx, op)
}

fn verify_all(program: &Program) -> Result<(), VerifyErr> {
    verify(program, program.module)
}

// ----- Lowering -----

fn preorder(ctx: &Context, op: OpId, ops: &mut Vec<OpId>, blocks: &mut Vec<BlockId>) {
    ops.push(op);
    for region in ctx.regions(op) {
        for block in ctx.blocks(region) {
            blocks.push(block);
            for inner in ctx.ops(block) {
                preorder(ctx, inner, ops, blocks);
            }
        }
    }
}

fn is_other(ctx: &Context, op: OpId) -> bool {
    matches!(ctx.kind(op), OpKind::Other(_))
}

/// The type, once it is converted.
fn converted(ty: Type) -> Type {
    if ty == Type::Index {
        Type::i64()
    } else {
        ty
    }
}

/// Checks that all branches forward to their targets what those take, once types are converted.
fn check_forwarding(program: &Program) {
    let ctx = &program.ctx;
    let (mut ops, mut blocks) = (Vec::new(), Vec::new());
    preorder(ctx, program.module, &mut ops, &mut blocks);
    for op in ops {
        let forwarded: Vec<Vec<Value>> = match ctx.kind(op) {
            OpKind::CfBr | OpKind::LlvmBr => vec![ctx.operands(op)],
            OpKind::CfCondBr | OpKind::LlvmCondBr => {
                vec![ctx.get_segment(op, 1), ctx.get_segment(op, 2)]
            }
            _ => continue,
        };
        for (values, block) in forwarded.into_iter().zip(ctx.successors(op)) {
            let given: Vec<Type> = values.iter().map(|v| converted(ctx.type_of(*v))).collect();
            let taken: Vec<Type> = (0..ctx.num_arguments(block))
                .map(|idx| converted(ctx.type_of(Value::BlockArgument { block, idx })))
                .collect();
            assert_eq!(given, taken);
        }
    }
}

/// Converts the types of all arguments of blocks.
fn convert_arguments(program: &mut Program) {
    let conversion = CFToLLVM;
    let ctx = &mut program.ctx;
    let (mut ops, mut blocks) = (Vec::new(), Vec::new());
    preorder(ctx, program.module, &mut ops, &mut blocks);
    for block in blocks {
        for idx in 0..ctx.num_arguments(block) {
            let ty = ctx.type_of(Value::BlockArgument { block, idx });
            if conversion.can_convert_type(ty) {
                ctx.retype_argument(block, idx, conversion.convert_type(ty));
            }
        }
    }
}

/// The operations of control flow.
fn control_flow(program: &Program) -> Vec<OpId> {
    let ctx = &program.ctx;
    let (mut ops, mut blocks) = (Vec::new(), Vec::new());
    preorder(ctx, program.module, &mut ops, &mut blocks);
    ops.into_iter().filter(|op| CFToLLVM.can_convert_op(ctx, *op) && !is_other(ctx, *op)).collect()
}

/// Lowers an operation. All others of control flow can still be lowered, and no lowering changes
/// what the program returns, or that branches forward to their targets what those take.
fn lower_one(program: &mut Program, op: OpId, returned: f32) {
    let conversion = CFToLLVM;
    let mut rewriter = IRRewriter::new(OpInsertionPoint::BeforeOperation(op));
    assert!(conversion.can_rewrite(&program.ctx, op));
    conversion.rewrite(&mut program.ctx, &mut rewriter, op).unwrap();
    assert!(!program.ctx.has_op(op));
    assert_eq!(run(program), returned);
    check_forwarding(program);
    assert!(control_flow(program).into_iter().all(|op| conversion.can_rewrite(&program.ctx, op)));
}

/// Lowers all operations of control flow. Those that a lowering makes come last. Returns how many
/// lowerings that takes.
fn lower(program: &mut Program) -> usize {
    let returned = run(program);
    convert_arguments(program);
    let mut work = control_flow(program);
    let mut next = 0;
    while next < work.len() {
        let known: Vec<OpId> = control_flow(program);
        lower_one(program, work[next], returned);
        let mut made = control_flow(program);
        made.retain(|op| !known.contains(op));
        made.sort();
        work.extend(made);
        next += 1;
    }
    assert!(control_flow(program).is_empty());
    next
}

/// Lowers all operations of control flow, always the last of those that are left, and converts the
/// types of arguments only then. Returns how many lowerings that takes.
fn lower_backwards(program: &mut Program) -> usize {
    let returned = run(program);
    let mut count = 0;
    while let Some(op) = control_flow(program).pop() {
        lower_one(program, op, returned);
        count += 1;
    }
    convert_arguments(program);
    check_forwarding(program);
    assert_eq!(run(program), returned);
    count
}

// ----- Writing -----

struct Writer<'a> {
    program: &'a Program,
    names: HashMap<Value, String>,
    labels: HashMap<BlockId, String>,
}

fn type_text(ty: Type) -> String {
    match ty {
        Type::Index => "index".to_string(),
        Type::Integer { width, .. } => format!("i{}", width),
        FP32 => "fp32".to_string(),
        PTR => "ptr".to_string(),
        Type::Other(other) => format!("type{}", other.id),
    }
}

impl Writer<'_> {
    fn name_all(&mut self, op: OpId) {
        let program = self.program;
        let ctx = &program.ctx;
        for idx in 0..ctx.num_results(op) {
            let v = Value::OpResult { op, idx };
            self.name_value(v);
        }
        for region in ctx.regions(op) {
            for block in ctx.blocks(region) {
                let label = ctx.label(block).unwrap_or("block".to_string());
                let n = self.labels.len();
                self.labels.insert(block, format!("{}{}", label, n));
                for v in ctx.arguments_from(block, 0) {
                    self.name_value(v);
                }
                for inner in ctx.ops(block) {
                    self.name_all(inner);
                }
            }
        }
    }

    fn name_value(&mut self, v: Value) {
        let n = self.names.len();
        let name = match self.program.ctx.name_of(v) {
            Some(name) => format!("{}_{}", name, n),
            None => format!("v{}", n),
        };
        self.names.insert(v, name);
    }

    fn values(&self, vs: &[Value]) -> String {
        let texts: Vec<String> = vs.iter().map(|v| self.names[v].clone()).collect();
        texts.join(", ")
    }

    fn place(&self, loc: Location) -> String {
        match loc {
            Location::Unknown => String::new(),
            Location::Known(line) => format!(" @{}", line),
        }
    }

    fn region(&self, region: RegionId) -> String {
        let program = self.program;
        let ctx = &program.ctx;
        let mut text = "{\n".to_string();
        for block in ctx.blocks(region) {
            let args: Vec<String> = ctx
                .arguments_from(block, 0)
                .iter()
                .map(|v| format!("{}: {}", self.names[v], type_text(ctx.type_of(*v))))
                .collect();
            let place = self.place(ctx.block_loc(block));
            text += &format!("^{}({}){}:\n", self.labels[&block], args.join(", "), place);
            for op in ctx.ops(block) {
                text += &self.operation(op);
                text += "\n";
            }
        }
        text + "}"
    }

    fn texts(&self, op: OpId) -> OpTexts {
        let program = self.program;
        let ctx = &program.ctx;
        let results: Vec<String> = (0..ctx.num_results(op))
            .map(|idx| self.names[&Value::OpResult { op, idx }].clone())
            .collect();
        OpTexts {
            results,
            operands: ctx.operands(op).iter().map(|v| self.names[v].clone()).collect(),
            successors: ctx.successors(op).iter().map(|b| self.labels[b].clone()).collect(),
            result_types: ctx.result_types(op).into_iter().map(type_text).collect(),
            regions: ctx.regions(op).into_iter().map(|r| self.region(r)).collect(),
        }
    }

    fn operation(&self, op: OpId) -> String {
        let program = self.program;
        let ctx = &program.ctx;
        let texts = self.texts(op);
        let defined = if texts.results.is_empty() {
            String::new()
        } else {
            format!("{} = ", texts.results.join(", "))
        };
        let opds = ctx.operands(op);
        let text = match ctx.kind(op) {
            OpKind::CfYield => format!("cf.yield {}", self.values(&opds)).trim().to_string(),
            OpKind::CfBr => format!("cf.br ^{}({})", texts.successors[0], self.values(&opds)),
            OpKind::CfCondBr => (CondBrOp { op }).fmt(ctx, &texts),
            OpKind::CfFor => (ForOp { op }).fmt(ctx, &texts),
            OpKind::CfNDFor => (NDForOp { op }).fmt(ctx, &texts),
            OpKind::CfExecuteRegion => (ExecuteRegionOp { op }).fmt(ctx, &texts),
            OpKind::CfIf => (IfOp { op }).fmt(ctx, &texts),
            OpKind::LlvmBr => format!("llvm.br ^{}({})", texts.successors[0], self.values(&opds)),
            OpKind::LlvmCondBr => format!(
                "llvm.cond_br if {} ^{}({}) else ^{}({})",
                self.names[&opds[0]],
                texts.successors[0],
                self.values(&ctx.get_segment(op, 1)),
                texts.successors[1],
                self.values(&ctx.get_segment(op, 2)),
            ),
            OpKind::LlvmICmp(pred) => format!(
                "{}llvm.icmp {} <{:?}> {}",
                defined, self.names[&opds[0]], pred, self.names[&opds[1]],
            ),
            OpKind::LlvmAdd(flags) => format!(
                "{}llvm.add {} <{{nsw={},nuw={}}}>",
                defined,
                self.values(&opds),
                flags.nsw,
                flags.nuw,
            ),
            OpKind::Other(other) => match program.acts[other.id as usize] {
                Act::Module => format!("builtin.module {}", texts.regions[0]),
                Act::Func => format!("llvm.func {}", texts.regions[0]),
                Act::Index(n) => format!("{}index.constant {}", defined, n),
                Act::Integer(n) => format!("{}builtin.constant {}", defined, n),
                Act::Single(x) => format!("{}builtin.constant {:?}", defined, x),
                Act::FAdd => format!("{}llvm.fadd {}", defined, self.values(&opds)),
                Act::Alloca => format!("{}llvm.alloca {}", defined, self.values(&opds)),
                Act::Load => format!("{}llvm.load {}", defined, self.values(&opds)),
                Act::Store => format!("llvm.store {}", self.values(&opds)),
                Act::Return => format!("llvm.return {}", self.values(&opds)),
                Act::Switch => format!("test.switch {}", self.values(&opds)),
            },
        };
        text + &self.place(ctx.op_loc(op))
    }
}

/// The function in a module.
fn func(program: &Program) -> OpId {
    let ctx = &program.ctx;
    let region = ctx.regions(program.module)[0];
    ctx.ops(ctx.blocks(region)[0])[0]
}

fn write(program: &Program) -> String {
    let mut writer = Writer { program, names: HashMap::new(), labels: HashMap::new() };
    writer.name_all(func(program));
    writer.operation(func(program))
}

/// The text without the white space at the beginning of its lines.
fn flush_left(text: &str) -> String {
    let lines: Vec<&str> = text.lines().map(|line| line.trim_start()).collect();
    lines.join("\n").trim().to_string()
}

// ----- Running -----

#[derive(Debug, Clone, Copy, PartialEq)]
enum Datum {
    Single(f32),
    Integer(u64),
    Pointer(usize),
}

/// Where control goes after an operation.
enum Flow {
    On,
    To(BlockId, Vec<Datum>),
    Yield(Vec<Datum>),
    Return(f32),
}

struct Machine<'a> {
    program: &'a Program,
    values: HashMap<Value, Datum>,
    memory: Vec<f32>,
}

impl Machine<'_> {
    fn read(&self, vs: &[Value]) -> Vec<Datum> {
        vs.iter().map(|v| self.values[v]).collect()
    }

    fn integer(&self, v: Value) -> u64 {
        match self.values[&v] {
            Datum::Integer(n) => n,
            other => panic!("{:?} is no integer", other),
        }
    }

    fn single(&self, v: Value) -> f32 {
        match self.values[&v] {
            Datum::Single(x) => x,
            other => panic!("{:?} is no number", other),
        }
    }

    fn pointer(&self, v: Value) -> usize {
        match self.values[&v] {
            Datum::Pointer(p) => p,
            other => panic!("{:?} is no pointer", other),
        }
    }

    /// Runs a region, with the given arguments for its first block, until it yields or the
    /// function returns.
    fn region(&mut self, region: RegionId, args: Vec<Datum>) -> Flow {
        let program = self.program;
        let ctx = &program.ctx;
        let mut block = ctx.blocks(region)[0];
        let mut given = args;
        loop {
            assert_eq!(given.len(), ctx.num_arguments(block));
            for (idx, datum) in given.into_iter().enumerate() {
                self.values.insert(Value::BlockArgument { block, idx }, datum);
            }
            let mut next = None;
            for op in ctx.ops(block) {
                match self.operation(op) {
                    Flow::On => {}
                    Flow::To(dest, data) => next = Some((dest, data)),
                    end => return end,
                }
            }
            (block, given) = next.expect("a branch");
        }
    }

    fn define(&mut self, op: OpId, data: Vec<Datum>) {
        for (idx, datum) in data.into_iter().enumerate() {
            self.values.insert(Value::OpResult { op, idx }, datum);
        }
    }

    /// Runs a region once, and takes what it yields for the results of the operation.
    fn once(&mut self, op: OpId, region: usize) -> Flow {
        let program = self.program;
        match self.region(program.ctx.regions(op)[region], vec![]) {
            Flow::Yield(data) => {
                self.define(op, data);
                Flow::On
            }
            end => end,
        }
    }

    /// Runs the loops over the dimensions for which there is no induction variable yet.
    fn nest(&mut self, op: OpId, ivs: Vec<Datum>) -> Flow {
        let program = self.program;
        let ctx = &program.ctx;
        let d = ivs.len();
        let lowers = ctx.get_segment(op, 0);
        if d == lowers.len() {
            return self.region(ctx.regions(op)[0], ivs);
        }
        let mut iv = self.integer(lowers[d]);
        let upper = self.integer(ctx.get_segment(op, 1)[d]);
        let step = self.integer(ctx.get_segment(op, 2)[d]);
        while iv < upper {
            let mut inner = ivs.clone();
            inner.push(Datum::Integer(iv));
            if let Flow::Return(x) = self.nest(op, inner) {
                return Flow::Return(x);
            }
            iv = iv.wrapping_add(step);
        }
        Flow::On
    }

    fn operation(&mut self, op: OpId) -> Flow {
        let program = self.program;
        let ctx = &program.ctx;
        let opds = ctx.operands(op);
        let result = match ctx.kind(op) {
            OpKind::LlvmBr | OpKind::CfBr => {
                return Flow::To(ctx.successors(op)[0], self.read(&opds));
            }
            OpKind::LlvmCondBr | OpKind::CfCondBr => {
                let k = if self.integer(opds[0]) != 0 { 0 } else { 1 };
                return Flow::To(ctx.successors(op)[k], self.read(&ctx.get_segment(op, k + 1)));
            }
            OpKind::CfYield => return Flow::Yield(self.read(&opds)),
            OpKind::CfFor => {
                let mut iv = self.integer(opds[0]);
                let (upper, step) = (self.integer(opds[1]), self.integer(opds[2]));
                let mut iters = self.read(&opds[3..]);
                while iv < upper {
                    let mut args = vec![Datum::Integer(iv)];
                    args.extend(iters);
                    match self.region(ctx.regions(op)[0], args) {
                        Flow::Yield(data) => iters = data,
                        end => return end,
                    }
                    iv = iv.wrapping_add(step);
                }
                self.define(op, iters);
                return Flow::On;
            }
            OpKind::CfNDFor => return self.nest(op, vec![]),
            OpKind::CfExecuteRegion => return self.once(op, 0),
            OpKind::CfIf => {
                let k = if self.integer(opds[0]) != 0 { 0 } else { 1 };
                return if k < ctx.regions(op).len() { self.once(op, k) } else { Flow::On };
            }
            OpKind::LlvmICmp(ICmpPredicate::ULT) => {
                Datum::Integer((self.integer(opds[0]) < self.integer(opds[1])) as u64)
            }
            OpKind::LlvmICmp(ICmpPredicate::UGT) => {
                Datum::Integer((self.integer(opds[0]) > self.integer(opds[1])) as u64)
            }
            OpKind::LlvmAdd(_) => {
                Datum::Integer(self.integer(opds[0]).wrapping_add(self.integer(opds[1])))
            }
            OpKind::Other(other) => match program.acts[other.id as usize] {
                Act::Index(n) | Act::Integer(n) => Datum::Integer(n),
                Act::Single(x) => Datum::Single(x),
                Act::FAdd => Datum::Single(self.single(opds[0]) + self.single(opds[1])),
                Act::Alloca => {
                    self.memory.push(0.0);
                    Datum::Pointer(self.memory.len() - 1)
                }
                Act::Load => Datum::Single(self.memory[self.pointer(opds[0])]),
                Act::Store => {
                    let at = self.pointer(opds[0]);
                    self.memory[at] = self.single(opds[1]);
                    return Flow::On;
                }
                Act::Return => return Flow::Return(self.single(opds[0])),
                Act::Switch => {
                    let k = self.integer(opds[0]) as usize;
                    return Flow::To(ctx.successors(op)[k], self.read(&ctx.get_segment(op, k + 1)));
                }
                act => panic!("{:?} cannot be run", act),
            },
            kind => panic!("{:?} cannot be run", kind),
        };
        self.define(op, vec![result]);
        Flow::On
    }
}

/// Runs the function of a program.
fn run(program: &Program) -> f32 {
    let mut machine = Machine { program, values: HashMap::new(), memory: Vec::new() };
    match machine.region(program.ctx.regions(func(program))[0], vec![]) {
        Flow::Return(x) => x,
        _ => panic!("the function does not return"),
    }
}

// ----- The programs -----

#[test]
fn test_for_op_to_llvm_conversion() {
    let input_ir = r#"
            builtin.module @test_module {
              ^entry():
                llvm.func @test_for: llvm.func <builtin.fp32 () variadic = false> [] {
                  ^entry():
                    c0 = index.constant <index.constant 0> : index.index;
                    c10 = index.constant <index.constant 10> : index.index;
                    c1 = index.constant <index.constant 1> : index.index;
                    init = builtin.constant <builtin.single 1.0> : builtin.fp32;
                    inc = builtin.constant <builtin.single 3.5> : builtin.fp32;
                    
                    result = cf.for c0 to c10 step c1 (init) {
                        ^entry(iv : index.index, iter_arg : builtin.fp32):
                            next = llvm.fadd <FAST> iter_arg, inc : builtin.fp32;
                            cf.yield next
                    };
                    
                    llvm.return result
                }
            }
            "#;
    let mut program = read(input_ir);
    assert_eq!(verify_all(&program), Ok(()));
    lower(&mut program);
    assert_eq!(verify_all(&program), Ok(()));
    let expected = "llvm.func {
        ^entry0() @5:
        c0_0 = index.constant 0 @6
        c10_1 = index.constant 10 @7
        c1_2 = index.constant 1 @8
        init_3 = builtin.constant 1.0 @9
        inc_4 = builtin.constant 3.5 @10
        llvm.br ^for_op_header1(c0_0, init_3)
        ^for_op_header1(v5: i64, result_6: fp32) @12:
        v7 = llvm.icmp v5 <ULT> c10_1
        llvm.cond_br if v7 ^entry2(v5, result_6) else ^entry_split3()
        ^entry2(iv_8: i64, iter_arg_9: fp32) @13:
        next_10 = llvm.fadd iter_arg_9, inc_4 @14
        v11 = llvm.add iv_8, c1_2 <{nsw=false,nuw=false}>
        llvm.br ^for_op_header1(v11, next_10)
        ^entry_split3():
        llvm.return result_6 @18
        } @4";
    assert_eq!(write(&program), flush_left(expected));
    assert_eq!(run(&program), 36.0);
}

// Several loop dimensions.
#[test]
fn test_ndfor_op_to_llvm_conversion() {
    let input_ir = r#"
            builtin.module @test_module {
              ^entry():
                llvm.func @test_ndfor: llvm.func <builtin.fp32 () variadic = false> [] {
                  ^entry():
                    c0 = index.constant <index.constant 0> : index.index;
                    c10 = index.constant <index.constant 10> : index.index;
                    c11 = index.constant <index.constant 11> : index.index;
                    c1 = index.constant <index.constant 1> : index.index;
                    c1_0 = builtin.constant <builtin.integer <1: i64>> : builtin.integer i64;
                    accum = llvm.alloca [builtin.fp32 x c1_0] : llvm.ptr(0);
                    f0 = builtin.constant <builtin.single 0.0> : builtin.fp32;
                    f1 = builtin.constant <builtin.single 1.5> : builtin.fp32;
                    llvm.store *accum <- f0;

                    cf.nd_for [c0, c0] to [c10, c11] step [c1, c1] {
                        ^entry(i : index.index, j : index.index):
                            accum_val = llvm.load accum : builtin.fp32;
                            sum = llvm.fadd <FAST> accum_val, f1 : builtin.fp32;
                            llvm.store *accum <- sum;
                            cf.yield
                    };
                    
                    result = llvm.load accum : builtin.fp32;
                    llvm.return result
                }
            }
            "#;
    let mut program = read(input_ir);
    assert_eq!(verify_all(&program), Ok(()));
    lower(&mut program);
    assert_eq!(verify_all(&program), Ok(()));
    let expected = "llvm.func {
        ^entry0() @5:
        c0_0 = index.constant 0 @6
        c10_1 = index.constant 10 @7
        c11_2 = index.constant 11 @8
        c1_3 = index.constant 1 @9
        c1_0_4 = builtin.constant 1 @10
        accum_5 = llvm.alloca c1_0_4 @11
        f0_6 = builtin.constant 0.0 @12
        f1_7 = builtin.constant 1.5 @13
        llvm.store accum_5, f0_6 @14
        llvm.br ^for_op_header1(c0_0)
        ^for_op_header1(v8: i64) @16:
        v9 = llvm.icmp v8 <ULT> c10_1
        llvm.cond_br if v9 ^entry2(v8) else ^entry_split7()
        ^entry2(iv_10: i64):
        llvm.br ^for_op_header3(c0_0)
        ^for_op_header3(v11: i64):
        v12 = llvm.icmp v11 <ULT> c11_2
        llvm.cond_br if v12 ^entry4(v11) else ^entry_split6()
        ^entry4(iv_13: i64):
        llvm.br ^entry5(iv_10, iv_13)
        ^entry5(i_14: i64, j_15: i64) @17:
        accum_val_16 = llvm.load accum_5 @18
        sum_17 = llvm.fadd accum_val_16, f1_7 @19
        llvm.store accum_5, sum_17 @20
        v18 = llvm.add iv_13, c1_3 <{nsw=false,nuw=false}>
        llvm.br ^for_op_header3(v18)
        ^entry_split6():
        v19 = llvm.add iv_10, c1_3 <{nsw=false,nuw=false}>
        llvm.br ^for_op_header1(v19)
        ^entry_split7():
        result_20 = llvm.load accum_5 @24
        llvm.return result_20 @25
        } @4";
    assert_eq!(write(&program), flush_left(expected));
    // The loop iterates 10 * 11 = 110 times, and each time it adds 1.5 to the accumulator.
    assert_eq!(run(&program), 165.0);
}

// The initial value of a nested loop may be an argument of the entry block of the enclosing
// loop. The result of the inner loop must have its type.
#[test]
fn test_nested_for_op_iter_arg_result_type() {
    let input_ir = r#"
      builtin.module @test_module {
        ^entry():
          llvm.func @test_nested_for: llvm.func <builtin.fp32 () variadic = false> [] {
            ^entry():
              c0 = index.constant <index.constant 0> : index.index;
              c10 = index.constant <index.constant 10> : index.index;
              c1 = index.constant <index.constant 1> : index.index;
              init = builtin.constant <builtin.single 1.0> : builtin.fp32;
              inc = builtin.constant <builtin.single 3.5> : builtin.fp32;

              outer = cf.for c0 to c10 step c1 (init) {
                ^entry(iv : index.index, iter_arg : builtin.fp32):
                    inner = cf.for c0 to c10 step c1 (iter_arg) {
                        ^entry(iv2 : index.index, iter_arg2 : builtin.fp32):
                            next2 = llvm.fadd <FAST> iter_arg2, inc : builtin.fp32;
                            cf.yield next2
                    };
                    cf.yield inner
              };

              llvm.return outer
          }
      }
      "#;
    let program = read(input_ir);
    let expected = "llvm.func {
        ^entry0() @5:
        c0_0 = index.constant 0 @6
        c10_1 = index.constant 10 @7
        c1_2 = index.constant 1 @8
        init_3 = builtin.constant 1.0 @9
        inc_4 = builtin.constant 3.5 @10
        outer_5 = cf.for c0_0 to c10_1 step c1_2 (init_3) {
        ^entry1(iv_6: index, iter_arg_7: fp32) @13:
        inner_8 = cf.for c0_0 to c10_1 step c1_2 (iter_arg_7) {
        ^entry2(iv2_9: index, iter_arg2_10: fp32) @15:
        next2_11 = llvm.fadd iter_arg2_10, inc_4 @16
        cf.yield next2_11 @17
        }
         @14
        cf.yield inner_8 @19
        }
         @12
        llvm.return outer_5 @22
        } @4";
    assert_eq!(flush_left(&write(&program)), flush_left(expected));
    assert_eq!(verify_all(&program), Ok(()));
    // The result of the inner loop has the type of its initial value.
    let ctx = &program.ctx;
    let (mut ops, mut blocks) = (Vec::new(), Vec::new());
    preorder(ctx, program.module, &mut ops, &mut blocks);
    let loops: Vec<OpId> = ops.into_iter().filter(|op| ctx.kind(*op) == OpKind::CfFor).collect();
    assert_eq!(loops.len(), 2);
    for op in loops {
        assert_eq!(ctx.result_types(op), vec![FP32]);
    }
}

// The bodies of loops must be a single block.
#[test]
fn test_for_op_multi_block_body_rejected() {
    let input_ir = r#"
            builtin.module @test_module {
              ^entry():
                llvm.func @test_for: llvm.func <builtin.fp32 () variadic = false> [] {
                  ^entry():
                    c0 = index.constant <index.constant 0> : index.index;
                    c10 = index.constant <index.constant 10> : index.index;
                    c1 = index.constant <index.constant 1> : index.index;
                    init = builtin.constant <builtin.single 1.0> : builtin.fp32;

                    result = cf.for c0 to c10 step c1 (init) {
                        ^entry(iv : index.index, iter_arg : builtin.fp32):
                            cf.br ^second(iter_arg)
                        ^second(a : builtin.fp32):
                            cf.yield a
                    };

                    llvm.return result
                }
            }
            "#;
    let program = read(input_ir);
    assert_eq!(verify_all(&program), Err(VerifyErr::SingleBlockRegion));
}

#[test]
fn test_execute_region_op_to_llvm_conversion() {
    let input_ir = r#"
      builtin.module @test_module {
        ^entry():
          llvm.func @test_execute_region: llvm.func <builtin.fp32 () variadic = false> [] {
            ^entry():
              c0 = index.constant <index.constant 0> : index.index;
              c10 = index.constant <index.constant 10> : index.index;
              c1 = index.constant <index.constant 1> : index.index;
              init = builtin.constant <builtin.single 1.0> : builtin.fp32;
              inc = builtin.constant <builtin.single 3.5> : builtin.fp32;
              result = cf.for c0 to c10 step c1 (init) {
                  ^entry(iv : index.index, iter_arg : builtin.fp32):
                      next = cf.execute_region -> (builtin.fp32) {
                          ^entry():
                              tmp = llvm.fadd <FAST> iter_arg, inc : builtin.fp32;
                              cf.br ^exit(tmp)
                          ^exit(v : builtin.fp32):
                              cf.yield v
                      };
                      cf.yield next
              };
              llvm.return result
          }
      }
      "#;
    let mut program = read(input_ir);
    assert_eq!(verify_all(&program), Ok(()));
    lower(&mut program);
    let expected = "llvm.func {
        ^entry0() @5:
        c0_0 = index.constant 0 @6
        c10_1 = index.constant 10 @7
        c1_2 = index.constant 1 @8
        init_3 = builtin.constant 1.0 @9
        inc_4 = builtin.constant 3.5 @10
        llvm.br ^for_op_header1(c0_0, init_3)
        ^for_op_header1(v5: i64, result_6: fp32) @11:
        v7 = llvm.icmp v5 <ULT> c10_1
        llvm.cond_br if v7 ^entry2(v5, result_6) else ^entry_split6()
        ^entry2(iv_8: i64, iter_arg_9: fp32) @12:
        llvm.br ^entry3()
        ^entry3() @14:
        tmp_10 = llvm.fadd iter_arg_9, inc_4 @15
        llvm.br ^exit4(tmp_10) @16
        ^exit4(v_11: fp32) @17:
        llvm.br ^block5(v_11)
        ^block5(next_12: fp32):
        v13 = llvm.add iv_8, c1_2 <{nsw=false,nuw=false}>
        llvm.br ^for_op_header1(v13, next_12)
        ^entry_split6():
        llvm.return result_6 @22
        } @4";
    assert_eq!(write(&program), flush_left(expected));
    assert_eq!(verify_all(&program), Ok(()));
    assert_eq!(run(&program), 36.0);
}

// A block that is not the exit block must end with a branch.
#[test]
fn test_execute_region_op_non_branch_terminator_rejected() {
    let input_ir = r#"
      builtin.module @test_module {
        ^entry():
          llvm.func @test_execute_region: llvm.func <builtin.fp32 () variadic = false> [] {
            ^entry():
              inc = builtin.constant <builtin.single 3.5> : builtin.fp32;
              next = cf.execute_region -> (builtin.fp32) {
                  ^entry():
                      llvm.return inc
                  ^exit(v : builtin.fp32):
                      cf.yield v
              };
              llvm.return next
          }
      }
      "#;
    let program = read(input_ir);
    let err = verify_all(&program).unwrap_err();
    assert!(matches!(
        err,
        VerifyErr::YieldingRegions(YieldingRegionsVerifyErr::NonExitBlockBadTerminator)
    ));
}

// A conditional branch is read and written, and lowers to one of the LLVM dialect, to the
// correct block with the correct forwarded operand.
#[test]
fn test_cond_br_op_to_llvm_conversion() {
    let input_ir = r#"
        builtin.module @test_module {
          ^entry():
            llvm.func @test_cond_br: llvm.func <builtin.fp32 () variadic = false> [] {
                ^entry():
                    zero = builtin.constant <builtin.integer <0: i64>> : builtin.integer i64;
                    one = builtin.constant <builtin.integer <1: i64>> : builtin.integer i64;
                    cond = llvm.icmp zero <ULT> one : builtin.integer i1;
                    true_val = builtin.constant <builtin.single 1.0> : builtin.fp32;
                    false_val = builtin.constant <builtin.single 2.0> : builtin.fp32;
                    cf.cond_br if cond ^true_blk(true_val) else ^false_blk(false_val)
                ^true_blk(x : builtin.fp32):
                    llvm.return x
                ^false_blk(y : builtin.fp32):
                    llvm.return y
            }
        }
        "#;
    let mut program = read(input_ir);
    assert_eq!(verify_all(&program), Ok(()));
    assert!(write(&program).contains(
        "cf.cond_br if cond_2 ^true_blk1(true_val_3) else ^false_blk2(false_val_4) @11\n"
    ));
    lower(&mut program);
    let expected = "llvm.func {
        ^entry0() @5:
        zero_0 = builtin.constant 0 @6
        one_1 = builtin.constant 1 @7
        cond_2 = llvm.icmp zero_0 <ULT> one_1 @8
        true_val_3 = builtin.constant 1.0 @9
        false_val_4 = builtin.constant 2.0 @10
        llvm.cond_br if cond_2 ^true_blk1(true_val_3) else ^false_blk2(false_val_4) @11
        ^true_blk1(x_5: fp32) @12:
        llvm.return x_5 @13
        ^false_blk2(y_6: fp32) @14:
        llvm.return y_6 @15
        } @4";
    assert_eq!(write(&program), flush_left(expected));
    assert_eq!(verify_all(&program), Ok(()));
    // 0 < 1 is true, so the `true_blk` branch (returning `true_val` == 1.0) is taken.
    assert_eq!(run(&program), 1.0);
}

// A choice, with an `else` region and a result.
fn if_op_with_else_input_ir(cmp_true: bool) -> String {
    let predicate = if cmp_true { "ULT" } else { "UGT" };
    format!(
        r#"
        builtin.module @test_module {{
          ^entry():
            llvm.func @test_if: llvm.func <builtin.fp32 () variadic = false> [] {{
                ^entry():
                    zero = builtin.constant <builtin.integer <0: i64>> : builtin.integer i64;
                    one = builtin.constant <builtin.integer <1: i64>> : builtin.integer i64;
                    cond = llvm.icmp zero <{predicate}> one : builtin.integer i1;
                    true_val = builtin.constant <builtin.single 1.0> : builtin.fp32;
                    false_val = builtin.constant <builtin.single 2.0> : builtin.fp32;
                    result = cf.if cond -> (builtin.fp32) {{
                        ^entry():
                            cf.yield true_val
                    }} else {{
                        ^entry():
                            cf.yield false_val
                    }};
                    llvm.return result
            }}
        }}
        "#
    )
}

#[test]
fn test_if_op_with_else_to_llvm_conversion() {
    let mut program = read(&if_op_with_else_input_ir(true));
    let expected = "llvm.func {
        ^entry0() @5:
        zero_0 = builtin.constant 0 @6
        one_1 = builtin.constant 1 @7
        cond_2 = llvm.icmp zero_0 <ULT> one_1 @8
        true_val_3 = builtin.constant 1.0 @9
        false_val_4 = builtin.constant 2.0 @10
        result_5 = cf.if cond_2 -> (fp32) {
        ^entry1() @12:
        cf.yield true_val_3 @13
        } else {
        ^entry2() @15:
        cf.yield false_val_4 @16
        }
         @11
        llvm.return result_5 @18
        } @4";
    assert_eq!(flush_left(&write(&program)), flush_left(expected));
    assert_eq!(verify_all(&program), Ok(()));
    lower(&mut program);
    let expected = "llvm.func {
        ^entry0() @5:
        zero_0 = builtin.constant 0 @6
        one_1 = builtin.constant 1 @7
        cond_2 = llvm.icmp zero_0 <ULT> one_1 @8
        true_val_3 = builtin.constant 1.0 @9
        false_val_4 = builtin.constant 2.0 @10
        llvm.cond_br if cond_2 ^entry1() else ^entry2()
        ^entry1() @12:
        llvm.br ^block3(true_val_3)
        ^entry2() @15:
        llvm.br ^block3(false_val_4)
        ^block3(result_5: fp32):
        llvm.return result_5 @18
        } @4";
    assert_eq!(write(&program), flush_left(expected));
    assert_eq!(verify_all(&program), Ok(()));
    // 0 < 1 is true, so the `then` region (yielding `true_val` == 1.0) is taken.
    assert_eq!(run(&program), 1.0);
}

#[test]
fn test_if_op_with_else_false_branch_to_llvm_conversion() {
    let mut program = read(&if_op_with_else_input_ir(false));
    assert_eq!(verify_all(&program), Ok(()));
    lower(&mut program);
    assert_eq!(verify_all(&program), Ok(()));
    // 0 > 1 is false, so the `else` region (yielding `false_val` == 2.0) is taken.
    assert_eq!(run(&program), 2.0);
}

// A choice without an `else` region and without results.
#[test]
fn test_if_op_without_else_to_llvm_conversion() {
    let input_ir = r#"
        builtin.module @test_module {
          ^entry():
            llvm.func @test_if_no_else: llvm.func <builtin.fp32 () variadic = false> [] {
            ^entry():
                zero = builtin.constant <builtin.integer <0: i64>> : builtin.integer i64;
                one = builtin.constant <builtin.integer <1: i64>> : builtin.integer i64;
                cond = llvm.icmp zero <ULT> one : builtin.integer i1;
                unused = builtin.constant <builtin.single 9.0> : builtin.fp32;
                result = builtin.constant <builtin.single 42.0> : builtin.fp32;
                cf.if cond -> () {
                    ^entry():
                        cf.yield
                };
                llvm.return result
            }
        }
        "#;
    let mut program = read(input_ir);
    assert_eq!(verify_all(&program), Ok(()));
    lower(&mut program);
    let expected = "llvm.func {
        ^entry0() @5:
        zero_0 = builtin.constant 0 @6
        one_1 = builtin.constant 1 @7
        cond_2 = llvm.icmp zero_0 <ULT> one_1 @8
        unused_3 = builtin.constant 9.0 @9
        result_4 = builtin.constant 42.0 @10
        llvm.cond_br if cond_2 ^entry1() else ^block2()
        ^entry1() @12:
        llvm.br ^block2()
        ^block2():
        llvm.return result_4 @15
        } @4";
    assert_eq!(write(&program), flush_left(expected));
    assert_eq!(verify_all(&program), Ok(()));
    assert_eq!(run(&program), 42.0);
}

// A choice with results must have an `else` region.
#[test]
fn test_if_op_missing_else_with_results_rejected() {
    let input_ir = r#"
        builtin.module @test_module {
          ^entry():
            llvm.func @test_if: llvm.func <builtin.fp32 () variadic = false> [] {
            ^entry():
                zero = builtin.constant <builtin.integer <0: i64>> : builtin.integer i64;
                one = builtin.constant <builtin.integer <1: i64>> : builtin.integer i64;
                cond = llvm.icmp zero <ULT> one : builtin.integer i1;
                true_val = builtin.constant <builtin.single 1.0> : builtin.fp32;
                result = cf.if cond -> (builtin.fp32) {
                    ^entry():
                        cf.yield true_val
                };
                llvm.return result
            }
        }
        "#;
    let program = read(input_ir);
    let err = verify_all(&program).unwrap_err();
    assert!(matches!(err, VerifyErr::If(IfOpVerifyErr::MissingElseRegion)));
}

// The regions of a choice are single blocks; a region that runs once embeds more of them.
#[test]
fn test_if_op_execute_region_in_then_branch_to_llvm_conversion() {
    let input_ir = r#"
        builtin.module @test_module {
          ^entry():
            llvm.func @test_if_execute_region: llvm.func <builtin.fp32 () variadic = false> [] {
            ^entry():
                zero = builtin.constant <builtin.integer <0: i64>> : builtin.integer i64;
                one = builtin.constant <builtin.integer <1: i64>> : builtin.integer i64;
                cond = llvm.icmp zero <ULT> one : builtin.integer i1;
                inc = builtin.constant <builtin.single 3.5> : builtin.fp32;
                false_val = builtin.constant <builtin.single 2.0> : builtin.fp32;
                result = cf.if cond -> (builtin.fp32) {
                    ^entry():
                        v = cf.execute_region -> (builtin.fp32) {
                            ^entry():
                                cf.br ^next(inc)
                            ^next(w : builtin.fp32):
                                cf.yield w
                        };
                        cf.yield v
                } else {
                    ^entry():
                        cf.yield false_val
                };
                llvm.return result
            }
        }
        "#;
    let mut program = read(input_ir);
    assert_eq!(verify_all(&program), Ok(()));
    lower(&mut program);
    let expected = "llvm.func {
        ^entry0() @5:
        zero_0 = builtin.constant 0 @6
        one_1 = builtin.constant 1 @7
        cond_2 = llvm.icmp zero_0 <ULT> one_1 @8
        inc_3 = builtin.constant 3.5 @9
        false_val_4 = builtin.constant 2.0 @10
        llvm.cond_br if cond_2 ^entry1() else ^entry5()
        ^entry1() @12:
        llvm.br ^entry2()
        ^entry2() @14:
        llvm.br ^next3(inc_3) @15
        ^next3(w_5: fp32) @16:
        llvm.br ^block4(w_5)
        ^block4(v_6: fp32):
        llvm.br ^block6(v_6)
        ^entry5() @21:
        llvm.br ^block6(false_val_4)
        ^block6(result_7: fp32):
        llvm.return result_7 @24
        } @4";
    assert_eq!(write(&program), flush_left(expected));
    assert_eq!(verify_all(&program), Ok(()));
    // 0 < 1 is true, so the `then` region is taken; it branches through a second block before
    // yielding `inc` == 3.5.
    assert_eq!(run(&program), 3.5);
}

// The regions of a choice must each have a single block.
#[test]
fn test_if_op_multi_block_region_rejected() {
    let input_ir = r#"
        builtin.module @test_module {
          ^entry():
            llvm.func @test_if_multi_block: llvm.func <builtin.fp32 () variadic = false> [] {
                ^entry():
                    zero = builtin.constant <builtin.integer <0: i64>> : builtin.integer i64;
                    one = builtin.constant <builtin.integer <1: i64>> : builtin.integer i64;
                    cond = llvm.icmp zero <ULT> one : builtin.integer i1;
                    inc = builtin.constant <builtin.single 3.5> : builtin.fp32;
                    false_val = builtin.constant <builtin.single 2.0> : builtin.fp32;
                    result = cf.if cond -> (builtin.fp32) {
                        ^entry():
                            cf.br ^next(inc)
                        ^next(v : builtin.fp32):
                            cf.yield v
                    } else {
                        ^entry():
                            cf.yield false_val
                    };
                    llvm.return result
            }
        }
        "#;
    let program = read(input_ir);
    assert_eq!(verify_all(&program), Err(VerifyErr::SingleBlockRegion));
}

/// A program that adds up what a loop over `0, 2, 4` stores.
fn summing_program(loop_head: &str) -> String {
    [
        "builtin.module @test_module {
              ^entry():
                llvm.func @test_sum: llvm.func <builtin.fp32 () variadic = false> [] {
                  ^entry():
                    c0 = index.constant <index.constant 0> : index.index;
                    c5 = index.constant <index.constant 5> : index.index;
                    c2 = index.constant <index.constant 2> : index.index;
                    c1_0 = builtin.constant <builtin.integer <1: i64>> : builtin.integer i64;
                    accum = llvm.alloca [builtin.fp32 x c1_0] : llvm.ptr(0);
                    f0 = builtin.constant <builtin.single 0.0> : builtin.fp32;
                    f1 = builtin.constant <builtin.single 1.5> : builtin.fp32;
                    llvm.store *accum <- f0;
                    ",
        loop_head,
        " {
                        ^entry(i : index.index):
                            accum_val = llvm.load accum : builtin.fp32;
                            sum = llvm.fadd <FAST> accum_val, f1 : builtin.fp32;
                            llvm.store *accum <- sum;
                            cf.yield
                    };
                    result = llvm.load accum : builtin.fp32;
                    llvm.return result
                }
            }
            ",
    ]
    .concat()
}

#[test]
fn loop_over_one_dimension_is_a_plain_loop() {
    for head in ["cf.nd_for [c0] to [c5] step [c2]", "cf.for c0 to c5 step c2 ()"] {
        let mut program = read(&summing_program(head));
        assert_eq!(verify_all(&program), Ok(()));
        assert_eq!(run(&program), 4.5);
        lower(&mut program);
        assert_eq!(verify_all(&program), Ok(()));
        assert_eq!(run(&program), 4.5);
    }
}

#[test]
fn order_of_lowering_does_not_matter() {
    let text = "builtin.module @test_module {
              ^entry():
                llvm.func @test_order: llvm.func <builtin.fp32 () variadic = false> [] {
                  ^entry():
                    c0 = index.constant <index.constant 0> : index.index;
                    c3 = index.constant <index.constant 3> : index.index;
                    c1 = index.constant <index.constant 1> : index.index;
                    zero = builtin.constant <builtin.integer <0: i64>> : builtin.integer i64;
                    one = builtin.constant <builtin.integer <1: i64>> : builtin.integer i64;
                    f1 = builtin.constant <builtin.single 1.0> : builtin.fp32;
                    f2 = builtin.constant <builtin.single 2.0> : builtin.fp32;
                    accum = llvm.alloca [builtin.fp32 x one] : llvm.ptr(0);
                    llvm.store *accum <- f1;
                    cond = llvm.icmp zero <ULT> one : builtin.integer i1;
                    total = cf.for c0 to c3 step c1 (f1) {
                        ^entry(iv : index.index, sum : builtin.fp32):
                            cf.nd_for [c0, c0] to [c3, iv] step [c1, c1] {
                                ^entry(i : index.index, j : index.index):
                                    old = llvm.load accum : builtin.fp32;
                                    new = llvm.fadd <FAST> old, f1 : builtin.fp32;
                                    llvm.store *accum <- new;
                                    cf.yield
                            };
                            more = cf.if cond -> (builtin.fp32) {
                                ^entry():
                                    inner = cf.execute_region -> (builtin.fp32) {
                                        ^entry():
                                            cf.cond_br if cond ^a(f1) else ^b(f2)
                                        ^a(x : builtin.fp32):
                                            cf.br ^b(x)
                                        ^b(y : builtin.fp32):
                                            cf.yield y
                                    };
                                    cf.yield inner
                            } else {
                                ^entry():
                                    cf.yield f2
                            };
                            next = llvm.fadd <FAST> sum, more : builtin.fp32;
                            cf.yield next
                    };
                    kept = llvm.load accum : builtin.fp32;
                    result = llvm.fadd <FAST> total, kept : builtin.fp32;
                    llvm.return result
                }
            }
            ";
    for forwards in [true, false] {
        let mut program = read(text);
        assert_eq!(verify_all(&program), Ok(()));
        assert_eq!(run(&program), 14.0);
        // One for each of six operations, and one for each of two dimensions.
        let count = if forwards { lower(&mut program) } else { lower_backwards(&mut program) };
        assert_eq!(count, 8);
        assert_eq!(verify_all(&program), Ok(()));
        assert_eq!(run(&program), 14.0);
    }
}

#[test]
fn branches_of_other_dialects_are_left_alone() {
    let text = "builtin.module @test_module {
              ^entry():
                llvm.func @test_switch: llvm.func <builtin.fp32 () variadic = false> [] {
                  ^entry():
                    two = builtin.constant <builtin.integer <2: i64>> : builtin.integer i64;
                    zero = builtin.constant <builtin.integer <0: i64>> : builtin.integer i64;
                    f1 = builtin.constant <builtin.single 1.0> : builtin.fp32;
                    f2 = builtin.constant <builtin.single 2.0> : builtin.fp32;
                    chosen = cf.execute_region -> (builtin.fp32) {
                        ^entry():
                            test.switch two ^a(f1) ^b(f1) ^c(f2, f1)
                        ^a(x : builtin.fp32):
                            cf.br ^d(x)
                        ^b(y : builtin.fp32):
                            cf.br ^d(y)
                        ^c(z : builtin.fp32, w : builtin.fp32):
                            both = llvm.fadd <FAST> z, w : builtin.fp32;
                            test.switch zero ^d(both)
                        ^d(v : builtin.fp32):
                            cf.yield v
                    };
                    result = llvm.fadd <FAST> chosen, f2 : builtin.fp32;
                    llvm.return result
                }
            }
            ";
    for forwards in [true, false] {
        let mut program = read(text);
        assert_eq!(verify_all(&program), Ok(()));
        assert_eq!(run(&program), 5.0);
        let count = if forwards { lower(&mut program) } else { lower_backwards(&mut program) };
        assert_eq!(count, 3);
        assert_eq!(run(&program), 5.0);
    }
}
