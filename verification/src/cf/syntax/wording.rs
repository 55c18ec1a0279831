//! How the operations are worded.

use crate::cf::ops::{CondBrOp, ExecuteRegionOp, ForOp, IfOp, NDForOp};
use crate::cf::syntax::grammar::Grammar;
use crate::cf::syntax::printing::OpTexts;
use crate::cf::syntax::reading::TypeListSyntax;
use crate::ir::model::Ir;
use vstd::prelude::*;

verus! {

impl Grammar {
    /// No names are no text, and one name is its own text. Two lists of names, joined together, are
    /// the texts of both with a comma and a blank between them.
    pub proof fn joined_together(some: Seq<Seq<char>>, more: Seq<Seq<char>>)
        ensures
            some.len() == 0 ==> Grammar::joined(some).len() == 0,
            some.len() == 1 ==> Grammar::joined(some) == some[0],
            some.len() > 0 && more.len() > 0 ==> Grammar::joined(some + more) == Grammar::joined(
                some,
            ) + ", "@ + Grammar::joined(more),
        decreases more.len(),
    {
        if some.len() > 0 && more.len() > 0 {
            let all = some + more;
            let front = more.drop_last();
            assert(all.drop_last() =~= some + front);
            assert(all.last() == more.last());
            if more.len() == 1 {
                assert(some + front =~= some);
            } else {
                Grammar::joined_together(some, front);
                assert(Grammar::joined(some) + ", "@ + Grammar::joined(front) + ", "@ + more.last()
                    =~= Grammar::joined(some) + ", "@ + (Grammar::joined(front) + ", "@
                    + more.last()));
            }
        }
    }

    /// As many names are read of several as there are, each at its own position.
    pub proof fn texts_are(names: Seq<String>)
        ensures
            Grammar::texts(names).len() == names.len(),
            forall|i: int| 0 <= i < names.len() ==> #[trigger] Grammar::texts(names)[i] == names[i]@,
    {
    }
}

impl TypeListSyntax {
    /// A list of types is worded as an arrow and the types, with commas between them, in
    /// parentheses.
    pub proof fn worded(types: Seq<Seq<char>>)
        ensures
            TypeListSyntax::text(types) == "-> ("@ + Grammar::joined(types) + ") "@,
    {
    }
}

impl OpTexts {
    /// What is defined stands before an operation with results: their names, with commas between
    /// them, and an equals sign. Before one without results stands nothing.
    pub proof fn defines(&self)
        ensures
            self.results@.len() == 0 ==> self.definition().len() == 0,
            self.results@.len() > 0 ==> self.definition() == Grammar::joined(
                Grammar::texts(self.results@),
            ) + " = "@,
    {
    }
}

impl CondBrOp {
    /// A conditional branch is worded as its condition, and each of its targets with what is
    /// forwarded to it in parentheses.
    pub proof fn worded(self, ir: Ir, texts: &OpTexts)
        requires
            ir.ops[self.op].has_segment(2),
            ir.ops[self.op].segments[0] > 0,
            texts.fits(ir.ops[self.op]),
        ensures
            ({
                let all = Grammar::texts(texts.operands@);
                let s = ir.ops[self.op].segments[0] as int;
                let n = s + ir.ops[self.op].segments[1];
                let m = n + ir.ops[self.op].segments[2];
                self.written(ir, texts) == "cf.cond_br "@ + ("if "@ + texts.operands@[0]@ + " ^"@
                    + texts.successors@[0]@ + "("@ + Grammar::joined(all.subrange(s, n))
                    + ") else ^"@ + texts.successors@[1]@ + "("@ + Grammar::joined(
                    all.subrange(n, m),
                ) + ")"@)
            }),
    {
        let view = ir.ops[self.op];
        view.earlier_segment(0, 2);
        view.earlier_segment(1, 2);
        view.segments_follow(0);
        view.segments_follow(1);
        view.segments_follow(2);
    }
}

impl ForOp {
    /// A loop is worded as what it defines, its bounds, its step, its initial values in
    /// parentheses, and its region.
    pub proof fn worded(self, ir: Ir, texts: &OpTexts)
        requires
            ir.ops[self.op].has_segment(1),
            ir.ops[self.op].segments[0] >= 3,
            texts.fits(ir.ops[self.op]),
        ensures
            ({
                let all = Grammar::texts(texts.operands@);
                let s = ir.ops[self.op].segments[0] as int;
                let n = ir.ops[self.op].segments[1] as int;
                self.written(ir, texts) == texts.definition() + "cf.for "@ + (texts.operands@[0]@
                    + " to "@ + texts.operands@[1]@ + " step "@ + texts.operands@[2]@ + " ("@
                    + Grammar::joined(all.subrange(s, s + n)) + ") "@) + texts.regions@[0]@ + "\n"@
            }),
    {
        let view = ir.ops[self.op];
        view.earlier_segment(0, 1);
        view.segments_follow(0);
        view.segments_follow(1);
        let s = view.segments[0] as int;
        assert(texts.segment(view, 0) =~= Grammar::texts(texts.operands@).subrange(0, s));
    }
}

impl NDForOp {
    /// A loop over several dimensions is worded as its lower bounds, its upper bounds and its steps,
    /// each in brackets, and its region.
    pub proof fn worded(self, ir: Ir, texts: &OpTexts)
        requires
            ir.ops[self.op].has_segment(2),
            texts.fits(ir.ops[self.op]),
        ensures
            ({
                let all = Grammar::texts(texts.operands@);
                let l = ir.ops[self.op].segments[0] as int;
                let u = ir.ops[self.op].segments[1] as int;
                let s = ir.ops[self.op].segments[2] as int;
                self.written(ir, texts) == "cf.nd_for "@ + ("["@ + Grammar::joined(
                    all.subrange(0, l),
                ) + "] to ["@ + Grammar::joined(all.subrange(l, l + u)) + "] step ["@
                    + Grammar::joined(all.subrange(l + u, l + u + s)) + "] "@) + texts.regions@[0]@
                    + "\n"@
            }),
    {
        let view = ir.ops[self.op];
        view.earlier_segment(0, 2);
        view.earlier_segment(1, 2);
        view.segments_follow(0);
        view.segments_follow(1);
        view.segments_follow(2);
    }
}

impl ExecuteRegionOp {
    /// An operation that runs a region is worded as what it defines, the types of that, and its
    /// region.
    pub proof fn worded(self, texts: &OpTexts)
        ensures
            self.written(texts) == texts.definition() + "cf.execute_region "@ + ("-> ("@
                + Grammar::joined(Grammar::texts(texts.result_types@)) + ") "@)
                + texts.regions@[0]@ + "\n"@,
    {
    }
}

impl IfOp {
    /// The second region of a choice, if there is one, is worded behind the first one.
    pub proof fn else_worded(self, ir: Ir, texts: &OpTexts)
        ensures
            ir.ops[self.op].regions.len() >= 2 ==> self.else_text(ir, texts) == " else "@
                + texts.regions@[1]@,
            ir.ops[self.op].regions.len() < 2 ==> self.else_text(ir, texts).len() == 0,
    {
    }
}

} // verus!
