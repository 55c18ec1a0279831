//! What running operations, blocks and regions means.

use crate::cf::ops::{ExecuteRegionOp, ForOp, IfOp, NDForOp};
use crate::ir::model::{Ir, OpView};
use crate::ir::types::{BlockId, ICmpPredicate, OpId, OpKind, RegionId, Type, Value};
use vstd::prelude::*;

verus! {

/// What the values are while operations run, and, as one number, all else that operations can
/// see and change.
#[verifier::ext_equal]
pub struct State {
    pub values: spec_fn(Value) -> int,
    pub world: int,
}

/// A place in a block, and the state in which control gets there.
#[verifier::ext_equal]
pub struct Arrival {
    pub block: BlockId,
    pub state: State,
}

impl State {
    /// What the given values are.
    pub open spec fn read(self, vs: Seq<Value>) -> Seq<int> {
        vs.map_values(|v: Value| (self.values)(v))
    }

    /// The results of an operation become the given numbers.
    pub open spec fn with_results(self, op: OpId, numbers: Seq<int>) -> State {
        State {
            values: |v: Value|
                match v {
                    Value::OpResult { op: o, idx } if o == op => numbers[idx as int],
                    _ => (self.values)(v),
                },
            ..self
        }
    }

    /// The arguments of a block become the given numbers.
    pub open spec fn with_args(self, block: BlockId, numbers: Seq<int>) -> State {
        State {
            values: |v: Value|
                match v {
                    Value::BlockArgument { block: b, idx } if b == block => numbers[idx as int],
                    _ => (self.values)(v),
                },
            ..self
        }
    }

    /// How many 64-bit integers there are.
    pub open spec fn modulus() -> int {
        0x1_0000_0000_0000_0000
    }

    /// The sum of two 64-bit integers.
    pub open spec fn sum(a: int, b: int) -> int {
        (a + b) % State::modulus()
    }
}

impl OpKind {
    /// Does an operation of this kind end the run of a region?
    pub open spec fn closes(self) -> bool {
        match self {
            OpKind::CfYield => true,
            OpKind::Other(other) => other.terminator && !other.branch,
            _ => false,
        }
    }
}

impl OpView {
    /// What an operation without regions makes of its operands, and of all else. Comparisons of
    /// unsigned integers and sums of 64-bit integers are as the LLVM dialect defines them; what
    /// any other operation does is given by `acts`, from the operation, its operands and all
    /// else.
    pub open spec fn outcome(
        self,
        op: OpId,
        acts: spec_fn(OpId, Seq<int>, int) -> (Seq<int>, int),
        operands: Seq<int>,
        world: int,
    ) -> (Seq<int>, int) {
        match self.kind {
            OpKind::LlvmICmp(ICmpPredicate::ULT) => (
                seq![if operands[0] < operands[1] { 1int } else { 0int }],
                world,
            ),
            OpKind::LlvmAdd(_) if self.results.len() > 0 && self.results[0].ty == Type::signless(
                64,
            ) => (seq![State::sum(operands[0], operands[1])], world),
            _ => acts(op, operands, world),
        }
    }
}

/// What the operations of control flow mean, where `run` says what running a region of theirs
/// leads to, if it comes to an end.
impl ForOp {
    /// The state after the loop, if it comes to an end within the given number of rounds. Before
    /// each round the induction variable is `iv` and the loop-carried variables are `iters`. If
    /// `iv` is below `upper`, the body runs once more, with these as its arguments; then the
    /// induction variable is advanced by `step`, and the loop-carried variables are what the
    /// body yields. Otherwise the results of the loop are the loop-carried variables.
    pub open spec fn rounds(
        self,
        ir: Ir,
        run: spec_fn(State) -> Option<State>,
        upper: int,
        step: int,
        iv: int,
        iters: Seq<int>,
        s: State,
        count: nat,
    ) -> Option<State>
        decreases count,
    {
        if iv >= upper {
            Some(s.with_results(self.op, iters))
        } else if count == 0 {
            None
        } else {
            match run(s.with_args(self.entry(ir), seq![iv] + iters)) {
                None => None,
                Some(end) => self.rounds(
                    ir,
                    run,
                    upper,
                    step,
                    State::sum(iv, step),
                    end.read(ir.ops[self.yield_op(ir)].operands),
                    end,
                    (count - 1) as nat,
                ),
            }
        }
    }

    /// The state after the loop, from the state before it, if it comes to an end within the
    /// given number of rounds.
    pub open spec fn meaning(
        self,
        ir: Ir,
        run: spec_fn(State) -> Option<State>,
        s: State,
        count: nat,
    ) -> Option<State> {
        if ir.has_body(self.op, 0) && self.has_bounds(ir, 3) && ir.ops[self.op].has_segment(1) {
            self.rounds(
                ir,
                run,
                (s.values)(self.upper_bound(ir)),
                (s.values)(self.step(ir)),
                (s.values)(self.lower_bound(ir)),
                s.read(self.iter_args_init(ir)),
                s,
                count,
            )
        } else {
            None
        }
    }
}

impl NDForOp {
    /// The state after the loops over the dimensions for which `ivs` has no induction variable
    /// yet, if they come to an end within the given number of rounds. Without any such
    /// dimension, the body runs once, with the induction variables as its arguments.
    pub open spec fn nest(
        self,
        ir: Ir,
        run: spec_fn(State) -> Option<State>,
        lowers: Seq<int>,
        uppers: Seq<int>,
        steps: Seq<int>,
        ivs: Seq<int>,
        s: State,
        count: nat,
    ) -> Option<State>
        decreases count, 1nat,
    {
        if ivs.len() >= self.dims(ir) {
            run(s.with_args(self.entry(ir), ivs))
        } else {
            self.along(
                ir,
                run,
                lowers,
                uppers,
                steps,
                ivs,
                lowers[ivs.len() as int],
                s,
                count,
            )
        }
    }

    /// The state after the rounds of the loop over the first dimension for which `ivs` has no
    /// induction variable yet, from the one with `iv` on.
    pub open spec fn along(
        self,
        ir: Ir,
        run: spec_fn(State) -> Option<State>,
        lowers: Seq<int>,
        uppers: Seq<int>,
        steps: Seq<int>,
        ivs: Seq<int>,
        iv: int,
        s: State,
        count: nat,
    ) -> Option<State>
        decreases count, 0nat,
    {
        let d = ivs.len() as int;
        if iv >= uppers[d] {
            Some(s)
        } else if count == 0 {
            None
        } else {
            let less = (count - 1) as nat;
            match self.nest(ir, run, lowers, uppers, steps, ivs.push(iv), s, less) {
                None => None,
                Some(end) => self.along(
                    ir,
                    run,
                    lowers,
                    uppers,
                    steps,
                    ivs,
                    State::sum(iv, steps[d]),
                    end,
                    less,
                ),
            }
        }
    }

    /// The state after the loops, from the state before them, if they come to an end within the
    /// given number of rounds: one loop for each dimension, the first one outermost.
    pub open spec fn meaning(
        self,
        ir: Ir,
        run: spec_fn(State) -> Option<State>,
        s: State,
        count: nat,
    ) -> Option<State> {
        if ir.has_body(self.op, 0) && ir.ops[self.op].has_segment(2) {
            self.nest(
                ir,
                run,
                s.read(self.lower_bounds(ir)),
                s.read(self.upper_bounds(ir)),
                s.read(self.steps(ir)),
                Seq::empty(),
                s,
                count,
            )
        } else {
            None
        }
    }
}

impl ExecuteRegionOp {
    /// The state after the operation, from the state before it, if the region comes to its end:
    /// the results are what it yields.
    pub open spec fn meaning(
        self,
        ir: Ir,
        run: spec_fn(State) -> Option<State>,
        s: State,
    ) -> Option<State> {
        match run(s.with_args(self.entry(ir), Seq::empty())) {
            None => None,
            Some(end) => Some(
                end.with_results(self.op, end.read(ir.ops[self.yield_op(ir)].operands)),
            ),
        }
    }
}

impl IfOp {
    /// The state after region `i`, from the state before the operation, if the region comes to
    /// its end: the results are what it yields.
    pub open spec fn branch_meaning(
        self,
        ir: Ir,
        run: spec_fn(State) -> Option<State>,
        i: int,
        s: State,
    ) -> Option<State> {
        match run(s.with_args(self.entry(ir, i), Seq::empty())) {
            None => None,
            Some(end) => Some(
                end.with_results(self.op, end.read(ir.ops[self.yield_op(ir, i)].operands)),
            ),
        }
    }

    /// The state after the operation, from the state before it, if the region that is chosen
    /// comes to its end: the first region if the condition holds, else the second one. If there
    /// is none, nothing happens.
    pub open spec fn meaning(
        self,
        ir: Ir,
        run_then: spec_fn(State) -> Option<State>,
        run_else: spec_fn(State) -> Option<State>,
        s: State,
    ) -> Option<State> {
        if ir.ops[self.op].operands.len() == 0 {
            None
        } else if (s.values)(self.condition(ir)) != 0 {
            self.branch_meaning(ir, run_then, 0, s)
        } else if self.has_else(ir) {
            self.branch_meaning(ir, run_else, 1, s)
        } else {
            Some(s)
        }
    }
}

impl Ir {
    /// The state after an operation has run, if it comes to an end within the given number of
    /// steps.
    pub open spec fn ran(
        self,
        acts: spec_fn(OpId, Seq<int>, int) -> (Seq<int>, int),
        op: OpId,
        s: State,
        fuel: nat,
    ) -> Option<State>
        decreases fuel, 3nat, 0nat,
    {
        match self.ops[op].kind {
            OpKind::CfFor => (ForOp { op }).meaning(
                self,
                self.running(acts, op, 0, fuel),
                s,
                fuel,
            ),
            OpKind::CfNDFor => (NDForOp { op }).meaning(
                self,
                self.running(acts, op, 0, fuel),
                s,
                fuel,
            ),
            OpKind::CfExecuteRegion => (ExecuteRegionOp { op }).meaning(
                self,
                self.running(acts, op, 0, fuel),
                s,
            ),
            OpKind::CfIf => (IfOp { op }).meaning(
                self,
                self.running(acts, op, 0, fuel),
                self.running(acts, op, 1, fuel),
                s,
            ),
            _ => {
                let operands = s.read(self.ops[op].operands);
                let (numbers, world) = self.ops[op].outcome(op, acts, operands, s.world);
                Some(State { world, ..s.with_results(op, numbers) })
            },
        }
    }

    /// What running region `i` of an operation leads to: from a state at its start to the one
    /// at the end of its last block, before what yields there, if control stays in the region
    /// and gets there within the given number of steps.
    pub open spec fn running(
        self,
        acts: spec_fn(OpId, Seq<int>, int) -> (Seq<int>, int),
        op: OpId,
        i: int,
        fuel: nat,
    ) -> spec_fn(State) -> Option<State>
        decreases fuel, 2nat, 0nat,
    {
        |s: State|
            if self.has_body(op, i) {
                match self.ran_region(acts, self.ops[op].regions[i], self.entry(op, i), s, fuel) {
                    None => None,
                    Some(end) => if end.block == self.exit(op, i) && self.ops[self.exit_op(
                        op,
                        i,
                    )].kind is CfYield {
                        Some(end.state)
                    } else {
                        None
                    },
                }
            } else {
                None
            }
    }

    /// The state after operations have run, one after the other, if each of them comes to an end
    /// within the given number of steps.
    pub open spec fn ran_all(
        self,
        acts: spec_fn(OpId, Seq<int>, int) -> (Seq<int>, int),
        ops: Seq<OpId>,
        s: State,
        fuel: nat,
    ) -> Option<State>
        decreases fuel, 4nat, ops.len(),
    {
        if ops.len() == 0 {
            Some(s)
        } else {
            match self.ran_all(acts, ops.drop_last(), s, fuel) {
                None => None,
                Some(t) => self.ran(acts, ops.last(), t, fuel),
            }
        }
    }

    /// The block in which the run of a region, from the start of a block of it, comes to an end,
    /// and the state there before the operation that ends it, if control stays in the region and
    /// gets there within the given number of steps.
    pub open spec fn ran_region(
        self,
        acts: spec_fn(OpId, Seq<int>, int) -> (Seq<int>, int),
        region: RegionId,
        block: BlockId,
        s: State,
        fuel: nat,
    ) -> Option<Arrival>
        decreases fuel, 1nat, 0nat,
    {
        let ops = self.blocks[block].ops;
        if fuel == 0 || ops.len() == 0 {
            None
        } else {
            let less = (fuel - 1) as nat;
            match self.ran_all(acts, ops.drop_last(), s, less) {
                None => None,
                Some(t) => if self.ops[ops.last()].kind.closes() {
                    Some(Arrival { block, state: t })
                } else {
                    match self.led(acts, ops.last(), t) {
                        None => None,
                        Some(to) => if self.blocks.contains_key(to.block)
                            && self.blocks[to.block].parent == region {
                            self.ran_region(acts, region, to.block, to.state, less)
                        } else {
                            None
                        },
                    }
                },
            }
        }
    }

    /// Where a branch of another dialect leads, in the state before it. What it does is given by
    /// `acts`: of the numbers that come of it the first says which of the successors is taken,
    /// and the others are forwarded.
    pub open spec fn led_elsewhere(
        self,
        acts: spec_fn(OpId, Seq<int>, int) -> (Seq<int>, int),
        op: OpId,
        s: State,
    ) -> Option<Arrival> {
        let view = self.ops[op];
        let (numbers, world) = acts(op, s.read(view.operands), s.world);
        if numbers.len() > 0 && 0 <= numbers[0] < view.successors.len() {
            let dest = view.successors[numbers[0]];
            let state = State { world, ..s.with_args(dest, numbers.skip(1)) };
            Some(Arrival { block: dest, state })
        } else {
            None
        }
    }

    /// Where a branch leads, in the state before it.
    pub open spec fn led(
        self,
        acts: spec_fn(OpId, Seq<int>, int) -> (Seq<int>, int),
        op: OpId,
        s: State,
    ) -> Option<Arrival> {
        let view = self.ops[op];
        match view.kind {
            OpKind::CfBr | OpKind::LlvmBr => if view.successors.len() > 0 {
                let dest = view.successors[0];
                Some(Arrival { block: dest, state: s.with_args(dest, s.read(view.operands)) })
            } else {
                None
            },
            OpKind::CfCondBr | OpKind::LlvmCondBr => if view.successors.len() > 1
                && view.operands.len() > 0 && view.has_segment(2) {
                if (s.values)(view.operands[0]) != 0 {
                    let dest = view.successors[0];
                    Some(Arrival { block: dest, state: s.with_args(dest, s.read(view.segment(1))) })
                } else {
                    let dest = view.successors[1];
                    Some(Arrival { block: dest, state: s.with_args(dest, s.read(view.segment(2))) })
                }
            } else {
                None
            },
            OpKind::Other(other) => if other.branch {
                self.led_elsewhere(acts, op, s)
            } else {
                None
            },
            _ => None,
        }
    }

    /// Where control goes from the start of a block, if the operations before its last one come
    /// to an end within the given number of steps: to the block that the branch at its end leads
    /// to.
    pub open spec fn stepped(
        self,
        acts: spec_fn(OpId, Seq<int>, int) -> (Seq<int>, int),
        block: BlockId,
        s: State,
        fuel: nat,
    ) -> Option<Arrival> {
        let ops = self.blocks[block].ops;
        if ops.len() == 0 {
            None
        } else {
            match self.ran_all(acts, ops.drop_last(), s, fuel) {
                None => None,
                Some(t) => self.led(acts, ops.last(), t),
            }
        }
    }

    /// Where control is after it has gone from block to block `n` times, within a region.
    pub open spec fn went(
        self,
        acts: spec_fn(OpId, Seq<int>, int) -> (Seq<int>, int),
        region: RegionId,
        block: BlockId,
        s: State,
        n: nat,
        fuel: nat,
    ) -> Option<Arrival>
        decreases n,
    {
        if n == 0 {
            Some(Arrival { block, state: s })
        } else {
            match self.stepped(acts, block, s, fuel) {
                None => None,
                Some(to) => if self.blocks.contains_key(to.block) && self.blocks[to.block].parent
                    == region {
                    self.went(acts, region, to.block, to.state, (n - 1) as nat, fuel)
                } else {
                    None
                },
            }
        }
    }

    /// Does control get from the start of a block, in the one state, to the start of another,
    /// in the other, without leaving the region?
    pub open spec fn reaches(
        self,
        acts: spec_fn(OpId, Seq<int>, int) -> (Seq<int>, int),
        region: RegionId,
        block: BlockId,
        s: State,
        dest: BlockId,
        t: State,
    ) -> bool {
        exists|n: nat, fuel: nat|
            #[trigger] self.went(acts, region, block, s, n, fuel) == Some(
                Arrival { block: dest, state: t },
            )
    }
}

} // verus!
