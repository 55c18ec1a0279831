//! A loop over a single dimension is a plain loop.

use crate::cf::ops::{ForOp, NDForOp};
use crate::cf::semantics::State;
use crate::ir::model::Ir;
use vstd::prelude::*;

verus! {

impl NDForOp {
    /// Is this a loop over a single dimension, with the bounds, the step and the arguments of the
    /// body of the plain loop, which has no loop-carried variables? The two loops may be in
    /// different representations.
    pub open spec fn is_plain(self, ir: Ir, plain: ForOp, other: Ir) -> bool {
        &&& ir.has_body(self.op, 0)
        &&& ir.ops[self.op].has_segment(2)
        &&& other.has_body(plain.op, 0)
        &&& plain.has_bounds(other, 3)
        &&& other.ops[plain.op].has_segment(1)
        &&& self.lower_bounds(ir) == seq![plain.lower_bound(other)]
        &&& self.upper_bounds(ir) == seq![plain.upper_bound(other)]
        &&& self.steps(ir) == seq![plain.step(other)]
        &&& plain.iter_args_init(other).len() == 0
        &&& other.ops[plain.yield_op(other)].operands.len() == 0
        &&& self.entry(ir) == plain.entry(other)
    }

    /// A loop over a single dimension means what the plain loop without loop-carried variables
    /// means: whatever running the body leads to, it runs as often, with the same values of the
    /// induction variable, in the same order, and leads to the same state, but that the plain
    /// loop sets its results, of which there are none.
    pub proof fn single_dimension(
        self,
        ir: Ir,
        plain: ForOp,
        other: Ir,
        run: spec_fn(State) -> Option<State>,
        s: State,
        count: nat,
    )
        requires
            self.is_plain(ir, plain, other),
        ensures
            plain.meaning(other, run, s, count) == (match self.meaning(ir, run, s, count) {
                None => None,
                Some(end) => Some(end.with_results(plain.op, Seq::empty())),
            }),
    {
        let lowers = s.read(self.lower_bounds(ir));
        let uppers = s.read(self.upper_bounds(ir));
        let steps = s.read(self.steps(ir));
        let none: Seq<int> = Seq::empty();
        assert(s.read(plain.iter_args_init(other)) =~= none);
        let iv = lowers[0];
        self.single_rounds(ir, plain, other, run, lowers, uppers, steps, iv, s, count);
    }

    /// So do the rounds from the one with `iv` on.
    proof fn single_rounds(
        self,
        ir: Ir,
        plain: ForOp,
        other: Ir,
        run: spec_fn(State) -> Option<State>,
        lowers: Seq<int>,
        uppers: Seq<int>,
        steps: Seq<int>,
        iv: int,
        s: State,
        count: nat,
    )
        requires
            self.is_plain(ir, plain, other),
            uppers.len() == 1,
            steps.len() == 1,
        ensures
            plain.rounds(other, run, uppers[0], steps[0], iv, Seq::empty(), s, count) == (
            match self.along(ir, run, lowers, uppers, steps, Seq::empty(), iv, s, count) {
                None => None,
                Some(end) => Some(end.with_results(plain.op, Seq::empty())),
            }),
        decreases count,
    {
        let none: Seq<int> = Seq::empty();
        if iv < uppers[0] && count > 0 {
            let less = (count - 1) as nat;
            assert(none.push(iv) =~= seq![iv] + none);
            let start = s.with_args(self.entry(ir), none.push(iv));
            assert(self.nest(ir, run, lowers, uppers, steps, none.push(iv), s, less) == run(start));
            if run(start) is Some {
                let end = run(start)->0;
                assert(end.read(other.ops[plain.yield_op(other)].operands) =~= none);
                let next = State::sum(iv, steps[0]);
                self.single_rounds(ir, plain, other, run, lowers, uppers, steps, next, end, less);
            }
        }
    }
}

} // verus!
