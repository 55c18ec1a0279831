//! Writing the operations.

use crate::cf::ops::{CondBrOp, ExecuteRegionOp, ForOp, IfOp, NDForOp};
use crate::cf::syntax::grammar::Grammar;
use crate::cf::syntax::reading::{CondBrNames, ForNames, NDForNames, TypeListSyntax};
use crate::ir::context::Context;
use crate::ir::model::{Ir, OpView};
use crate::ir::types::OpId;
use vstd::prelude::*;

verus! {

/// How the parts of an operation are written: the names of its results, operands and
/// successors, its result types, and its regions.
#[derive(Debug)]
pub struct OpTexts {
    pub results: Vec<String>,
    pub operands: Vec<String>,
    pub successors: Vec<String>,
    pub result_types: Vec<String>,
    pub regions: Vec<String>,
}

impl OpTexts {
    /// Is there a text for each of the parts of the operation?
    pub open spec fn fits(&self, op: OpView) -> bool {
        &&& self.results@.len() == op.results.len()
        &&& self.operands@.len() == op.operands.len()
        &&& self.successors@.len() == op.successors.len()
        &&& self.result_types@.len() == op.results.len()
        &&& self.regions@.len() == op.regions.len()
    }

    /// The texts of the operands of a segment.
    pub open spec fn segment(&self, op: OpView, i: int) -> Seq<Seq<char>> {
        Grammar::texts(self.operands@).subrange(
            op.segment_start(i),
            op.segment_start(i) + op.segments[i],
        )
    }

    /// The results and an equals sign, if there are any results.
    pub open spec fn definition(&self) -> Seq<char> {
        if self.results@.len() == 0 {
            Seq::empty()
        } else {
            Grammar::joined(Grammar::texts(self.results@)) + " = "@
        }
    }

    /// Writes the results and an equals sign, if there are any results.
    fn write_definition(&self) -> (text: String)
        ensures
            text@ == self.definition(),
    {
        if self.results.len() == 0 {
            String::new()
        } else {
            let mut text = Grammar::write_joined(&self.results);
            text.append(" = ");
            text
        }
    }

    /// Writes the result types.
    fn write_result_types(&self) -> (text: String)
        ensures
            text@ == TypeListSyntax::text(Grammar::texts(self.result_types@)),
    {
        let mut text = String::from_str("-> (");
        text.append(Grammar::write_joined(&self.result_types).as_str());
        text.append(") ");
        text
    }

    /// The texts of the operands of a segment.
    fn get_segment(&self, ctx: &Context, op: OpId, seg_idx: usize) -> (texts: Vec<String>)
        requires
            ctx@.ops.contains_key(op),
            ctx@.ops[op].has_segment(seg_idx as int),
            self.fits(ctx@.ops[op]),
        ensures
            Grammar::texts(texts@) == self.segment(ctx@.ops[op], seg_idx as int),
            texts@.len() == ctx@.ops[op].segments[seg_idx as int],
    {
        let ghost view = ctx@.ops[op];
        proof {
            view.segment_in_range(seg_idx as int);
        }
        let start: usize = ctx.segment_start(op, seg_idx);
        let size: usize = ctx.segments(op)[seg_idx] as usize;
        let count: usize = self.operands.len();
        let mut texts: Vec<String> = Vec::new();
        let ghost all = Grammar::texts(self.operands@);
        for i in 0..size
            invariant
                start + size <= count == self.operands@.len(),
                all == Grammar::texts(self.operands@),
                Grammar::texts(texts@) == all.subrange(start as int, start + i),
        {
            let text = self.operands[start + i].clone();
            let ghost before = texts@;
            texts.push(text);
            assert(Grammar::texts(texts@) =~= Grammar::texts(before).push(all[start + i]));
            assert(Grammar::texts(texts@) =~= all.subrange(start as int, start + i + 1));
        }
        texts
    }
}

impl CondBrNames {
    /// A conditional branch, behind its name.
    pub open spec fn text(self) -> Seq<char> {
        "if "@ + self.condition + " ^"@ + self.true_dest + "("@ + Grammar::joined(
            self.true_dest_opds,
        ) + ") else ^"@ + self.false_dest + "("@ + Grammar::joined(self.false_dest_opds) + ")"@
    }
}

impl ForNames {
    /// A loop, behind its name and before its region.
    pub open spec fn text(self) -> Seq<char> {
        self.lower_bound + " to "@ + self.upper_bound + " step "@ + self.step + " ("@
            + Grammar::joined(self.iter_args_init) + ") "@
    }
}

impl NDForNames {
    /// A loop over several dimensions, behind its name and before its region.
    pub open spec fn text(self) -> Seq<char> {
        "["@ + Grammar::joined(self.lower_bounds) + "] to ["@ + Grammar::joined(self.upper_bounds)
            + "] step ["@ + Grammar::joined(self.steps) + "] "@
    }
}

impl CondBrOp {
    /// The names in the operation.
    pub open spec fn names(self, ir: Ir, texts: &OpTexts) -> CondBrNames {
        let op = ir.ops[self.op];
        CondBrNames {
            condition: texts.operands@[0]@,
            true_dest: texts.successors@[0]@,
            true_dest_opds: texts.segment(op, 1),
            false_dest: texts.successors@[1]@,
            false_dest_opds: texts.segment(op, 2),
        }
    }

    /// The operation as it is written.
    pub open spec fn written(self, ir: Ir, texts: &OpTexts) -> Seq<char> {
        "cf.cond_br "@ + self.names(ir, texts).text()
    }

    /// Writes the operation.
    pub fn fmt(&self, ctx: &Context, texts: &OpTexts) -> (text: String)
        requires
            ctx@.ops.contains_key(self.op),
            ctx@.ops[self.op].operands.len() > 0,
            ctx@.ops[self.op].successors.len() > 1,
            ctx@.ops[self.op].has_segment(2),
            texts.fits(ctx@.ops[self.op]),
        ensures
            text@ == self.written(ctx@, texts),
    {
        let ghost op = ctx@.ops[self.op];
        proof {
            op.earlier_segment(1, 2);
        }
        let true_dest_opds = texts.get_segment(ctx, self.op, 1);
        let false_dest_opds = texts.get_segment(ctx, self.op, 2);
        let mut text = String::from_str("if ");
        text.append(texts.operands[0].as_str());
        text.append(" ^");
        text.append(texts.successors[0].as_str());
        text.append("(");
        text.append(Grammar::write_joined(&true_dest_opds).as_str());
        text.append(") else ^");
        text.append(texts.successors[1].as_str());
        text.append("(");
        text.append(Grammar::write_joined(&false_dest_opds).as_str());
        text.append(")");
        assert(text@ == self.names(ctx@, texts).text());
        let mut whole = String::from_str("cf.cond_br ");
        whole.append(text.as_str());
        whole
    }
}

impl ForOp {
    /// The names in the operation.
    pub open spec fn names(self, ir: Ir, texts: &OpTexts) -> ForNames {
        let op = ir.ops[self.op];
        ForNames {
            lower_bound: texts.segment(op, 0)[0],
            upper_bound: texts.segment(op, 0)[1],
            step: texts.segment(op, 0)[2],
            iter_args_init: texts.segment(op, 1),
        }
    }

    /// The operation as it is written.
    pub open spec fn written(self, ir: Ir, texts: &OpTexts) -> Seq<char> {
        texts.definition() + "cf.for "@ + self.names(ir, texts).text() + texts.regions@[0]@ + "\n"@
    }

    /// Writes the operation.
    pub fn fmt(&self, ctx: &Context, texts: &OpTexts) -> (text: String)
        requires
            self.has_bounds(ctx@, 3),
            ctx@.ops[self.op].has_segment(1),
            ctx@.ops[self.op].regions.len() > 0,
            texts.fits(ctx@.ops[self.op]),
        ensures
            text@ == self.written(ctx@, texts),
    {
        let ghost names = self.names(ctx@, texts);
        let loop_inputs = texts.get_segment(ctx, self.op, 0);
        let iter_args_init = texts.get_segment(ctx, self.op, 1);
        proof {
            let all = Grammar::texts(loop_inputs@);
            assert(all[0] == loop_inputs@[0]@);
            assert(all[1] == loop_inputs@[1]@);
            assert(all[2] == loop_inputs@[2]@);
        }
        let mut text = loop_inputs[0].clone();
        text.append(" to ");
        text.append(loop_inputs[1].as_str());
        text.append(" step ");
        text.append(loop_inputs[2].as_str());
        text.append(" (");
        text.append(Grammar::write_joined(&iter_args_init).as_str());
        text.append(") ");
        assert(text@ == names.text());
        let mut whole = texts.write_definition();
        whole.append("cf.for ");
        whole.append(text.as_str());
        whole.append(texts.regions[0].as_str());
        whole.append("\n");
        whole
    }
}

impl NDForOp {
    /// The names in the operation.
    pub open spec fn names(self, ir: Ir, texts: &OpTexts) -> NDForNames {
        let op = ir.ops[self.op];
        NDForNames {
            lower_bounds: texts.segment(op, 0),
            upper_bounds: texts.segment(op, 1),
            steps: texts.segment(op, 2),
        }
    }

    /// The operation as it is written.
    pub open spec fn written(self, ir: Ir, texts: &OpTexts) -> Seq<char> {
        "cf.nd_for "@ + self.names(ir, texts).text() + texts.regions@[0]@ + "\n"@
    }

    /// Writes the operation.
    pub fn fmt(&self, ctx: &Context, texts: &OpTexts) -> (text: String)
        requires
            ctx@.ops.contains_key(self.op),
            ctx@.ops[self.op].has_segment(2),
            ctx@.ops[self.op].regions.len() > 0,
            texts.fits(ctx@.ops[self.op]),
        ensures
            text@ == self.written(ctx@, texts),
    {
        let ghost op = ctx@.ops[self.op];
        proof {
            op.earlier_segment(0, 2);
            op.earlier_segment(1, 2);
        }
        let lower_bounds = texts.get_segment(ctx, self.op, 0);
        let upper_bounds = texts.get_segment(ctx, self.op, 1);
        let steps = texts.get_segment(ctx, self.op, 2);
        let mut text = String::from_str("[");
        text.append(Grammar::write_joined(&lower_bounds).as_str());
        text.append("] to [");
        text.append(Grammar::write_joined(&upper_bounds).as_str());
        text.append("] step [");
        text.append(Grammar::write_joined(&steps).as_str());
        text.append("] ");
        assert(text@ == self.names(ctx@, texts).text());
        let mut whole = String::from_str("cf.nd_for ");
        whole.append(text.as_str());
        whole.append(texts.regions[0].as_str());
        whole.append("\n");
        whole
    }
}

impl ExecuteRegionOp {
    /// The operation as it is written.
    pub open spec fn written(self, texts: &OpTexts) -> Seq<char> {
        texts.definition() + "cf.execute_region "@ + TypeListSyntax::text(
            Grammar::texts(texts.result_types@),
        ) + texts.regions@[0]@ + "\n"@
    }

    /// Writes the operation.
    pub fn fmt(&self, ctx: &Context, texts: &OpTexts) -> (text: String)
        requires
            ctx@.ops.contains_key(self.op),
            ctx@.ops[self.op].regions.len() > 0,
            texts.fits(ctx@.ops[self.op]),
        ensures
            text@ == self.written(texts),
    {
        let mut text = texts.write_definition();
        text.append("cf.execute_region ");
        text.append(texts.write_result_types().as_str());
        text.append(texts.regions[0].as_str());
        text.append("\n");
        text
    }
}

impl IfOp {
    /// The `else` region, if there is one.
    pub open spec fn else_text(self, ir: Ir, texts: &OpTexts) -> Seq<char> {
        if self.has_else(ir) {
            " else "@ + texts.regions@[1]@
        } else {
            Seq::empty()
        }
    }

    /// Writes the operation.
    pub fn fmt(&self, ctx: &Context, texts: &OpTexts) -> (text: String)
        requires
            ctx@.ops.contains_key(self.op),
            ctx@.ops[self.op].operands.len() > 0,
            ctx@.ops[self.op].regions.len() > 0,
            texts.fits(ctx@.ops[self.op]),
        ensures
            text@ == texts.definition() + "cf.if "@ + texts.operands@[0]@ + " "@
                + TypeListSyntax::text(Grammar::texts(texts.result_types@)) + texts.regions@[0]@
                + self.else_text(ctx@, texts) + "\n"@,
    {
        let mut text = texts.write_definition();
        text.append("cf.if ");
        text.append(texts.operands[0].as_str());
        text.append(" ");
        text.append(texts.write_result_types().as_str());
        text.append(texts.regions[0].as_str());
        if self.has_else_region(ctx) {
            let ghost before = text@;
            text.append(" else ");
            text.append(texts.regions[1].as_str());
            assert(text@ =~= before + self.else_text(ctx@, texts));
        } else {
            assert(text@ =~= text@ + self.else_text(ctx@, texts));
        }
        text.append("\n");
        text
    }
}

} // verus!
