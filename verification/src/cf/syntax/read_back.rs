//! An operation that is written, read back and built again has the parts that it had.

use crate::cf::ops::{CondBrOp, ExecuteRegionOp, ForOp, NDForOp};
use crate::cf::syntax::grammar::Grammar;
use crate::cf::syntax::printing::OpTexts;
use crate::cf::syntax::reading::{
    CondBrNames, CondBrSyntax, ForNames, ForSyntax, NDForNames, NDForSyntax, TypeListStep,
    TypeListSyntax,
};
use crate::cf::verify::VerifyErr;
use crate::ir::model::{Def, Ir, OpView};
use crate::ir::segments::Segments;
use crate::ir::types::{BlockId, Type, Value};
use vstd::prelude::*;

verus! {

impl OpTexts {
    /// Are the operands written as identifiers that stand for them where the text is read?
    pub open spec fn resolve(&self, op: OpView, value_of: spec_fn(Seq<char>) -> Value) -> bool {
        forall|k: int|
            0 <= k < op.operands.len() ==> Grammar::is_identifier(
                (#[trigger] self.operands@[k])@,
            ) && value_of(self.operands@[k]@) == op.operands[k]
    }

    /// What stands for the operands of a segment is read as they are.
    proof fn segment_resolved(&self, op: OpView, i: int, value_of: spec_fn(Seq<char>) -> Value)
        requires
            self.fits(op),
            self.resolve(op, value_of),
            op.has_segment(i),
        ensures
            Grammar::are_identifiers(self.segment(op, i)),
            self.segment(op, i).len() == op.segment(i).len(),
            self.segment(op, i).map_values(value_of) == op.segment(i),
    {
        op.segment_in_range(i);
        let start = op.segment_start(i);
        let texts = self.segment(op, i);
        assert forall|k: int| 0 <= k < texts.len() implies Grammar::is_identifier(
            #[trigger] texts[k],
        ) && value_of(texts[k]) == op.segment(i)[k] by {
            assert(texts[k] == self.operands@[start + k]@);
            assert(op.segment(i)[k] == op.operands[start + k]);
        }
        assert(texts.map_values(value_of) =~= op.segment(i));
    }
}

impl OpView {
    /// The operands of an operation are those of its three segments.
    proof fn three_segments(self)
        requires
            self.segments.len() == 3,
            Segments::total(self.segments) == self.operands.len(),
        ensures
            self.has_segment(0),
            self.has_segment(1),
            self.has_segment(2),
            self.segment(0).len() == self.segments[0],
            self.segment(1).len() == self.segments[1],
            self.segment(2).len() == self.segments[2],
            self.operands == self.segment(0) + self.segment(1) + self.segment(2),
    {
        self.all_segments_there();
        self.segment_in_range(0);
        self.segment_in_range(1);
        self.segment_in_range(2);
        Segments::total_step(self.segments, 0);
        Segments::total_step(self.segments, 1);
        Segments::total_step(self.segments, 2);
        assert(self.segments.take(3) =~= self.segments);
        assert(self.segment_start(0) == 0);
        assert(self.operands =~= self.segment(0) + self.segment(1) + self.segment(2));
    }
}

impl Grammar {
    /// Texts can be put together from either end.
    proof fn regrouped(a: Seq<char>, b: Seq<char>, c: Seq<char>, d: Seq<char>)
        ensures
            a + b + c + d == a + (b + (c + d)),
    {
        assert(a + b + c + d =~= a + (b + (c + d)));
    }

    /// Where nothing but white space ends, a text goes on with what stands behind.
    proof fn goes_on(text: Seq<char>, rest: Seq<char>)
        requires
            rest.len() > 0,
            !Grammar::is_space(rest[0]),
        ensures
            Grammar::spaces(text + rest, text.len() as int) == text.len(),
            (text + rest).skip(text.len() as int) == rest,
    {
        assert((text + rest)[text.len() as int] == rest[0]);
        Grammar::behind(text, rest);
    }

    /// Nothing stands behind a text.
    proof fn nothing_behind(text: Seq<char>)
        ensures
            text + Seq::<char>::empty() == text,
    {
        assert(text + Seq::<char>::empty() =~= text);
    }

    /// Behind what begins a text is what stands behind it.
    proof fn behind(first: Seq<char>, rest: Seq<char>)
        ensures
            (first + rest).skip(first.len() as int) == rest,
    {
        assert((first + rest).skip(first.len() as int) =~= rest);
    }
}

impl ForNames {
    /// The loop, in no block and without its region, that is built from these names.
    pub open spec fn built(self, ir: Ir, value_of: spec_fn(Seq<char>) -> Value) -> OpView {
        ForOp::unfilled(
            ir,
            value_of(self.lower_bound),
            value_of(self.upper_bound),
            value_of(self.step),
            self.iter_args_init.map_values(value_of),
        )
    }
}

impl ForOp {
    /// A loop with bounds and a step is written such that what stands behind its name can be read.
    /// What is built from that, where the names stand for the same values and these have the same
    /// types, has the same bounds, step and initial values. It has the same operands in the same
    /// segments if the loop has no others, and as many results of the same types if those of the
    /// loop have the types of the initial values. Reading stops where the region was written.
    pub proof fn reads_back(
        self,
        ir: Ir,
        texts: &OpTexts,
        there: Ir,
        value_of: spec_fn(Seq<char>) -> Value,
    )
        requires
            ir.ops[self.op].segments.len() == 2,
            VerifyErr::segments_add_up(ir, self.op),
            ir.ops[self.op].segments[0] >= 3,
            texts.fits(ir.ops[self.op]),
            texts.resolve(ir.ops[self.op], value_of),
            there.types_of(ir.ops[self.op].operands) == ir.types_of(ir.ops[self.op].operands),
        ensures
            ({
                let op = ir.ops[self.op];
                let name = texts.definition() + "cf.for "@;
                let written = self.written(ir, texts).skip(name.len() as int);
                let region = texts.regions@[0]@ + "\n"@;
                let read = ForSyntax::reading(written, 0);
                let (names, end) = read->0;
                let made = names.built(there, value_of);
                let types = ir.types_of(self.iter_args_init(ir));
                &&& read is Some
                &&& made.operands == seq![
                    self.lower_bound(ir),
                    self.upper_bound(ir),
                    self.step(ir),
                ] + self.iter_args_init(ir)
                &&& made.segments == seq![3u32, op.segments[1]]
                &&& op.segments[0] == 3 ==> made.operands == op.operands && made.segments
                    == op.segments
                &&& made.results.map_values(|d: Def| d.ty) == types
                &&& op.results.map_values(|d: Def| d.ty) == types ==> made.results.map_values(
                    |d: Def| d.ty,
                ) == op.results.map_values(|d: Def| d.ty)
                &&& region.len() > 0 && !Grammar::is_space(region[0]) ==> written.skip(end)
                    == region
            }),
    {
        let op = ir.ops[self.op];
        let names = self.names(ir, texts);
        let name = texts.definition() + "cf.for "@;
        let region = texts.regions@[0]@ + "\n"@;
        let text = names.text();
        op.all_segments_there();
        texts.segment_resolved(op, 0, value_of);
        texts.segment_resolved(op, 1, value_of);
        op.segment_in_range(0);
        op.segment_in_range(1);
        let bounds = texts.segment(op, 0);
        assert(bounds.map_values(value_of)[0] == value_of(bounds[0]));
        assert(bounds.map_values(value_of)[1] == value_of(bounds[1]));
        assert(bounds.map_values(value_of)[2] == value_of(bounds[2]));
        Grammar::regrouped(name, text, texts.regions@[0]@, "\n"@);
        Grammar::behind(name, text + region);
        names.reads_what_was_written(region);
        let made = names.built(there, value_of);
        let inits = op.segment(1);
        Segments::total_step(op.segments, 0);
        Segments::total_step(op.segments, 1);
        assert(op.segments.take(2) =~= op.segments);
        let n = op.segments[0] as int;
        assert(op.segment_start(1) == n && op.segment_start(0) == 0);
        assert(op.operands.len() == n + inits.len());
        assert(self.lower_bound(ir) == op.operands[0]);
        assert(self.upper_bound(ir) == op.operands[1]);
        assert(self.step(ir) == op.operands[2]);
        assert(op.segment(0)[0] == op.operands[0]);
        assert(op.segment(0)[1] == op.operands[1]);
        assert(op.segment(0)[2] == op.operands[2]);
        if n == 3 {
            assert(made.operands =~= op.operands) by {
                assert forall|k: int| 3 <= k < op.operands.len() implies made.operands[k]
                    == op.operands[k] by {
                    assert(inits[k - 3] == op.operands[k]);
                }
            }
            assert(made.segments =~= op.segments);
        }
        assert(there.types_of(inits) =~= ir.types_of(inits)) by {
            assert forall|k: int| 0 <= k < inits.len() implies there.def(#[trigger] inits[k]).ty
                == ir.def(inits[k]).ty by {
                assert(inits[k] == op.operands[n + k]);
                assert(there.types_of(op.operands)[n + k] == ir.types_of(op.operands)[n + k]);
            }
        }
        assert(made.results.map_values(|d: Def| d.ty) =~= there.types_of(inits));
        if region.len() > 0 && !Grammar::is_space(region[0]) {
            Grammar::goes_on(text, region);
        }
    }
}

impl NDForNames {
    /// The loop, in no block and without its region, that is built from these names.
    pub open spec fn built(self, value_of: spec_fn(Seq<char>) -> Value) -> OpView {
        NDForOp::unfilled(
            self.lower_bounds.map_values(value_of),
            self.upper_bounds.map_values(value_of),
            self.steps.map_values(value_of),
        )
    }
}

impl NDForOp {
    /// A loop over several dimensions is written such that what stands behind its name can be
    /// read. What is built from that, where the names stand for the same values, has the same
    /// operands and the same segments, and no results. Reading stops where the region was written.
    pub proof fn reads_back(
        self,
        ir: Ir,
        texts: &OpTexts,
        value_of: spec_fn(Seq<char>) -> Value,
    )
        requires
            ir.ops[self.op].segments.len() == 3,
            VerifyErr::segments_add_up(ir, self.op),
            texts.fits(ir.ops[self.op]),
            texts.resolve(ir.ops[self.op], value_of),
        ensures
            ({
                let op = ir.ops[self.op];
                let written = self.written(ir, texts).skip("cf.nd_for "@.len() as int);
                let region = texts.regions@[0]@ + "\n"@;
                let read = NDForSyntax::reading(written, 0);
                let (names, end) = read->0;
                &&& read is Some
                &&& names.built(value_of).operands == op.operands
                &&& names.built(value_of).segments == op.segments
                &&& names.built(value_of).results.len() == 0
                &&& region.len() > 0 && !Grammar::is_space(region[0]) ==> written.skip(end)
                    == region
            }),
    {
        let op = ir.ops[self.op];
        let names = self.names(ir, texts);
        let name = "cf.nd_for "@;
        let region = texts.regions@[0]@ + "\n"@;
        let text = names.text();
        op.three_segments();
        texts.segment_resolved(op, 0, value_of);
        texts.segment_resolved(op, 1, value_of);
        texts.segment_resolved(op, 2, value_of);
        Grammar::regrouped(name, text, texts.regions@[0]@, "\n"@);
        Grammar::behind(name, text + region);
        names.reads_what_was_written(region);
        let made = names.built(value_of);
        assert(made.segments =~= op.segments);
        if region.len() > 0 && !Grammar::is_space(region[0]) {
            Grammar::goes_on(text, region);
        }
    }
}

impl CondBrNames {
    /// The branch, in no block, that is built from these names.
    pub open spec fn built(
        self,
        value_of: spec_fn(Seq<char>) -> Value,
        block_of: spec_fn(Seq<char>) -> BlockId,
    ) -> OpView {
        CondBrOp::view(
            value_of(self.condition),
            block_of(self.true_dest),
            self.true_dest_opds.map_values(value_of),
            block_of(self.false_dest),
            self.false_dest_opds.map_values(value_of),
        )
    }
}

impl CondBrOp {
    /// What is built from the names in a branch has the parts of the branch.
    proof fn rebuilt(
        self,
        ir: Ir,
        texts: &OpTexts,
        value_of: spec_fn(Seq<char>) -> Value,
        block_of: spec_fn(Seq<char>) -> BlockId,
    )
        requires
            ir.ops[self.op].segments.len() == 3,
            VerifyErr::segments_add_up(ir, self.op),
            ir.ops[self.op].operands.len() > 0,
            ir.ops[self.op].successors.len() == 2,
            texts.fits(ir.ops[self.op]),
            texts.resolve(ir.ops[self.op], value_of),
            forall|k: int|
                0 <= k < ir.ops[self.op].successors.len() ==> Grammar::is_identifier(
                    (#[trigger] texts.successors@[k])@,
                ) && block_of(texts.successors@[k]@) == ir.ops[self.op].successors[k],
        ensures
            ({
                let op = ir.ops[self.op];
                let names = self.names(ir, texts);
                let made = names.built(value_of, block_of);
                &&& names.are_identifiers()
                &&& made.operands == seq![op.operands[0]] + op.segment(1) + op.segment(2)
                &&& made.successors == op.successors
                &&& made.segments == seq![1u32, op.segments[1], op.segments[2]]
                &&& op.segments[0] == 1 ==> made.operands == op.operands && made.segments
                    == op.segments
            }),
    {
        let op = ir.ops[self.op];
        let names = self.names(ir, texts);
        op.three_segments();
        texts.segment_resolved(op, 1, value_of);
        texts.segment_resolved(op, 2, value_of);
        let made = names.built(value_of, block_of);
        assert(Grammar::is_identifier(texts.operands@[0]@));
        assert(value_of(texts.operands@[0]@) == op.operands[0]);
        assert(block_of(texts.successors@[0]@) == op.successors[0]);
        assert(block_of(texts.successors@[1]@) == op.successors[1]);
        assert(made.successors =~= op.successors);
        if op.segments[0] == 1 {
            assert(op.segment(0) =~= seq![op.operands[0]]);
            assert(made.segments =~= op.segments);
        }
    }

    /// A conditional branch with a condition is written such that what stands behind its name can
    /// be read. What is built from that, where the names stand for the same values and blocks, has
    /// the same condition, the same successors, and forwards the same values to them. It has the
    /// same operands in the same segments if the first segment of the branch is its condition.
    pub proof fn reads_back(
        self,
        ir: Ir,
        texts: &OpTexts,
        value_of: spec_fn(Seq<char>) -> Value,
        block_of: spec_fn(Seq<char>) -> BlockId,
    )
        requires
            ir.ops[self.op].segments.len() == 3,
            VerifyErr::segments_add_up(ir, self.op),
            ir.ops[self.op].operands.len() > 0,
            ir.ops[self.op].successors.len() == 2,
            texts.fits(ir.ops[self.op]),
            texts.resolve(ir.ops[self.op], value_of),
            forall|k: int|
                0 <= k < ir.ops[self.op].successors.len() ==> Grammar::is_identifier(
                    (#[trigger] texts.successors@[k])@,
                ) && block_of(texts.successors@[k]@) == ir.ops[self.op].successors[k],
        ensures
            ({
                let op = ir.ops[self.op];
                let written = self.written(ir, texts).skip("cf.cond_br "@.len() as int);
                let read = CondBrSyntax::reading(written, 0);
                let (names, end) = read->0;
                let made = names.built(value_of, block_of);
                &&& read is Some
                &&& made.operands == seq![op.operands[0]] + op.segment(1) + op.segment(2)
                &&& made.successors == op.successors
                &&& made.segments == seq![1u32, op.segments[1], op.segments[2]]
                &&& op.segments[0] == 1 ==> made.operands == op.operands && made.segments
                    == op.segments
                &&& end == written.len()
            }),
    {
        let names = self.names(ir, texts);
        let none: Seq<char> = Seq::empty();
        self.rebuilt(ir, texts, value_of, block_of);
        Grammar::behind("cf.cond_br "@, names.text());
        names.reads_what_was_written(none);
        assert(names.text() + none == names.text()) by {
            Grammar::nothing_behind(names.text());
        }
    }
}

impl TypeListSyntax {
    /// The types of a list from a step on, and where it ends, if there are not more than `most`
    /// of them. Each type is read by the dialect that it is from: `read_type` says which type
    /// begins at a place, and where it ends.
    pub open spec fn types_from(
        s: Seq<char>,
        step: TypeListStep,
        read_type: spec_fn(int) -> Option<(Type, int)>,
        most: nat,
    ) -> Option<(Seq<Type>, int)>
        decreases most,
    {
        match step {
            TypeListStep::Malformed => None,
            TypeListStep::End(end) => Some((Seq::empty(), end as int)),
            TypeListStep::TypeAt(at) => if most == 0 {
                None
            } else {
                match read_type(at as int) {
                    None => None,
                    Some((ty, behind)) => match TypeListSyntax::types_from(
                        s,
                        TypeListSyntax::going_on(s, behind),
                        read_type,
                        (most - 1) as nat,
                    ) {
                        None => None,
                        Some((types, end)) => Some((seq![ty] + types, end)),
                    },
                }
            },
        }
    }

    /// The types of a list, and where it ends.
    pub open spec fn reading(
        s: Seq<char>,
        i: int,
        read_type: spec_fn(int) -> Option<(Type, int)>,
    ) -> Option<(Seq<Type>, int)> {
        TypeListSyntax::types_from(s, TypeListSyntax::beginning(s, i), read_type, s.len())
    }

    /// The rest of a list is read, from any of its types on, where type `j` begins at `at(j)` and
    /// ends at `behind(j)`.
    proof fn reads_rest(
        s: Seq<char>,
        types: Seq<Type>,
        read_type: spec_fn(int) -> Option<(Type, int)>,
        at: spec_fn(int) -> int,
        behind: spec_fn(int) -> int,
        end: int,
        k: int,
        most: nat,
    )
        requires
            forall|j: int|
                #![trigger at(j)]
                0 <= j < types.len() ==> {
                    &&& 0 <= at(j) <= usize::MAX
                    &&& read_type(at(j)) == Some((types[j], behind(j)))
                    &&& TypeListSyntax::going_on(s, behind(j)) == if j + 1 == types.len() {
                        TypeListStep::End(end as usize)
                    } else {
                        TypeListStep::TypeAt(at(j + 1) as usize)
                    }
                },
            0 <= end <= usize::MAX,
            0 <= k < types.len(),
            types.len() - k <= most,
        ensures
            TypeListSyntax::types_from(s, TypeListStep::TypeAt(at(k) as usize), read_type, most)
                == Some((types.skip(k), end)),
        decreases types.len() - k,
    {
        reveal_with_fuel(TypeListSyntax::types_from, 2);
        if k + 1 < types.len() {
            let less = (most - 1) as nat;
            TypeListSyntax::reads_rest(s, types, read_type, at, behind, end, k + 1, less);
            assert(seq![types[k]] + types.skip(k + 1) =~= types.skip(k));
        } else {
            let none: Seq<Type> = Seq::empty();
            assert(seq![types[k]] + none =~= types.skip(k));
        }
    }

    /// A list of types that was written is read as it is, if each of the types is.
    #[verifier::rlimit(50)]
    pub proof fn reads_back(
        texts: Seq<Seq<char>>,
        rest: Seq<char>,
        types: Seq<Type>,
        read_type: spec_fn(int) -> Option<(Type, int)>,
    )
        requires
            TypeListSyntax::are_types(texts),
            texts.len() == types.len(),
            (TypeListSyntax::text(texts) + rest).len() <= usize::MAX,
            forall|j: int|
                #![trigger TypeListSyntax::type_at(texts, j)]
                0 <= j < texts.len() ==> {
                    let at = TypeListSyntax::type_at(texts, j);
                    read_type(at) == Some((types[j], at + texts[j].len()))
                },
        ensures
            ({
                let s = TypeListSyntax::text(texts) + rest;
                TypeListSyntax::reading(s, 0, read_type) == Some(
                    (types, Grammar::spaces(s, TypeListSyntax::text(texts).len() as int)),
                )
            }),
    {
        let text = TypeListSyntax::text(texts);
        let s = text + rest;
        TypeListSyntax::reads_what_was_written(texts, rest);
        Grammar::spaces_range(s, text.len() as int);
        if texts.len() == 0 {
            assert(types =~= Seq::empty());
        } else {
            let at = |j: int| TypeListSyntax::type_at(texts, j);
            let behind = |j: int| TypeListSyntax::type_at(texts, j) + texts[j].len();
            let end = Grammar::spaces(s, text.len() as int);
            assert forall|j: int| #![trigger at(j)] 0 <= j < types.len() implies {
                &&& 0 <= at(j) <= usize::MAX
                &&& read_type(at(j)) == Some((types[j], behind(j)))
                &&& TypeListSyntax::going_on(s, behind(j)) == if j + 1 == types.len() {
                    TypeListStep::End(end as usize)
                } else {
                    TypeListStep::TypeAt(at(j + 1) as usize)
                }
            } by {
                TypeListSyntax::begins_within(texts, rest, j);
                assert(at(j) == TypeListSyntax::type_at(texts, j));
            }
            TypeListSyntax::joined_holds(texts);
            TypeListSyntax::reads_rest(s, types, read_type, at, behind, end, 0, s.len());
            assert(types.skip(0) =~= types);
        }
    }

    /// The types of a list begin within its text.
    proof fn begins_within(texts: Seq<Seq<char>>, rest: Seq<char>, k: int)
        requires
            0 <= k < texts.len(),
        ensures
            0 <= TypeListSyntax::type_at(texts, k) <= (TypeListSyntax::text(texts) + rest).len(),
    {
        let text = TypeListSyntax::text(texts);
        Grammar::stands_first(text, rest);
        TypeListSyntax::one_stands(text + rest, texts, k);
        reveal(Grammar::stands);
    }

    /// Joined texts, none of which is empty, are at least as many characters as texts.
    proof fn joined_holds(texts: Seq<Seq<char>>)
        requires
            TypeListSyntax::are_types(texts),
        ensures
            Grammar::joined(texts).len() >= texts.len(),
        decreases texts.len(),
    {
        if texts.len() > 0 {
            let front = texts.drop_last();
            assert forall|k: int| 0 <= k < front.len() implies (#[trigger] front[k]).len() > 0
                && !Grammar::is_space(front[k][0]) && front[k][0] != ')' by {
                assert(front[k] == texts[k]);
            }
            TypeListSyntax::joined_holds(front);
            assert(texts[texts.len() - 1].len() > 0);
        }
    }
}

impl ExecuteRegionOp {
    /// An operation is written such that what stands behind its name can be read, if the texts of
    /// the types can: what is built from that has as many results of the same types, and no
    /// operands. Reading stops where the region was written.
    pub proof fn reads_back(
        self,
        ir: Ir,
        texts: &OpTexts,
        read_type: spec_fn(int) -> Option<(Type, int)>,
    )
        requires
            ir.ops[self.op].kind is CfExecuteRegion,
            texts.fits(ir.ops[self.op]),
            TypeListSyntax::are_types(Grammar::texts(texts.result_types@)),
            self.written(texts).len() <= usize::MAX,
            forall|j: int|
                #![trigger TypeListSyntax::type_at(Grammar::texts(texts.result_types@), j)]
                0 <= j < texts.result_types@.len() ==> {
                    let at = TypeListSyntax::type_at(Grammar::texts(texts.result_types@), j);
                    read_type(at) == Some(
                        (ir.ops[self.op].results[j].ty, at + texts.result_types@[j]@.len()),
                    )
                },
        ensures
            ({
                let op = ir.ops[self.op];
                let name = texts.definition() + "cf.execute_region "@;
                let written = self.written(texts).skip(name.len() as int);
                let region = texts.regions@[0]@ + "\n"@;
                let read = TypeListSyntax::reading(written, 0, read_type);
                let (types, end) = read->0;
                let made = ExecuteRegionOp::unfilled(types);
                &&& read is Some
                &&& made.results.map_values(|d: Def| d.ty) == op.results.map_values(|d: Def| d.ty)
                &&& made.operands.len() == 0
                &&& region.len() > 0 && !Grammar::is_space(region[0]) ==> written.skip(end)
                    == region
            }),
    {
        let op = ir.ops[self.op];
        let name = texts.definition() + "cf.execute_region "@;
        let region = texts.regions@[0]@ + "\n"@;
        let all = Grammar::texts(texts.result_types@);
        let text = TypeListSyntax::text(all);
        let types = op.results.map_values(|d: Def| d.ty);
        Grammar::regrouped(name, text, texts.regions@[0]@, "\n"@);
        Grammar::behind(name, text + region);
        TypeListSyntax::reads_back(all, region, types, read_type);
        let made = ExecuteRegionOp::unfilled(types);
        assert(made.results.map_values(|d: Def| d.ty) =~= types);
        if region.len() > 0 && !Grammar::is_space(region[0]) {
            Grammar::goes_on(text, region);
        }
    }
}

} // verus!
