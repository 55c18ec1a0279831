//! Operands in groups: an operation may cut its operands into segments of given sizes.

use crate::ir::context::Context;
use crate::ir::model::{Ir, OpView};
use crate::ir::types::{OpId, Value};
use vstd::prelude::*;

verus! {

/// Groups of operands.
pub struct Segments;

impl Segments {
    /// The sum of the given sizes.
    pub open spec fn total(sizes: Seq<u32>) -> int
        decreases sizes.len(),
    {
        if sizes.len() == 0 {
            0
        } else {
            Segments::total(sizes.drop_last()) + sizes.last()
        }
    }

    /// The sizes of the given groups.
    pub open spec fn sizes(groups: Seq<Seq<Value>>) -> Seq<u32> {
        groups.map_values(|group: Seq<Value>| group.len() as u32)
    }

    /// The groups that vectors stand for.
    pub open spec fn groups(groups: Seq<Vec<Value>>) -> Seq<Seq<Value>> {
        groups.map_values(|group: Vec<Value>| group@)
    }

    /// Can the sizes of the groups be stored?
    pub open spec fn fit(groups: Seq<Seq<Value>>) -> bool {
        forall|i: int| 0 <= i < groups.len() ==> (#[trigger] groups[i]).len() <= u32::MAX
    }

    /// One more size adds itself to the sum.
    pub proof fn total_step(sizes: Seq<u32>, i: int)
        requires
            0 <= i < sizes.len(),
        ensures
            Segments::total(sizes.take(i + 1)) == Segments::total(sizes.take(i)) + sizes[i],
    {
        assert(sizes.take(i + 1).drop_last() =~= sizes.take(i));
    }

    /// Longer prefixes have larger sums.
    pub proof fn total_monotonic(sizes: Seq<u32>, i: int, j: int)
        requires
            0 <= i <= j <= sizes.len(),
        ensures
            0 <= Segments::total(sizes.take(i)) <= Segments::total(sizes.take(j)),
        decreases j,
    {
        if i == j {
            if i == 0 {
                assert(sizes.take(0).len() == 0);
            } else {
                Segments::total_step(sizes, i - 1);
                Segments::total_monotonic(sizes, i - 1, i - 1);
            }
        } else {
            Segments::total_step(sizes, j - 1);
            Segments::total_monotonic(sizes, i, j - 1);
        }
    }

    /// The groups, put one behind the other, are as long as their sizes say.
    pub proof fn flattened_len(groups: Seq<Seq<Value>>)
        requires
            Segments::fit(groups),
        ensures
            groups.flatten().len() == Segments::total(Segments::sizes(groups)),
        decreases groups.len(),
    {
        let sizes = Segments::sizes(groups);
        if groups.len() > 0 {
            let rest = groups.drop_last();
            assert(groups =~= rest.push(groups.last()));
            rest.lemma_flatten_push(groups.last());
            Segments::flattened_len(rest);
            assert(sizes.drop_last() =~= Segments::sizes(rest));
            assert(groups.last().len() <= u32::MAX);
        }
    }

    /// What is cut out of the groups, put one behind the other, at the place that the sizes
    /// give to a group, is that group.
    pub proof fn cut_out(groups: Seq<Seq<Value>>, i: int)
        requires
            Segments::fit(groups),
            0 <= i < groups.len(),
        ensures
            ({
                let sizes = Segments::sizes(groups);
                let start = Segments::total(sizes.take(i));
                &&& 0 <= start <= start + groups[i].len() <= groups.flatten().len()
                &&& sizes[i] == groups[i].len()
                &&& groups.flatten().subrange(start, start + groups[i].len()) == groups[i]
            }),
        decreases groups.len(),
    {
        let sizes = Segments::sizes(groups);
        let rest = groups.drop_last();
        let last = groups.last();
        assert(groups =~= rest.push(last));
        rest.lemma_flatten_push(last);
        Segments::flattened_len(rest);
        assert(sizes.drop_last() =~= Segments::sizes(rest));
        assert(groups[i].len() <= u32::MAX);
        if i == groups.len() - 1 {
            assert(sizes.take(i) =~= Segments::sizes(rest));
            Segments::total_monotonic(sizes, i, i);
            let start = Segments::total(sizes.take(i));
            assert(groups.flatten().subrange(start, start + groups[i].len()) =~= groups[i]);
        } else {
            Segments::cut_out(rest, i);
            assert(sizes.take(i) =~= Segments::sizes(rest).take(i));
            let start = Segments::total(sizes.take(i));
            assert(groups.flatten().subrange(start, start + groups[i].len())
                =~= rest.flatten().subrange(start, start + rest[i].len()));
        }
    }

    /// Two groups, put one behind the other.
    pub proof fn flatten_two(a: Seq<Value>, b: Seq<Value>)
        ensures
            seq![a, b].flatten() == a + b,
    {
        let empty: Seq<Seq<Value>> = Seq::empty();
        empty.lemma_flatten_push(a);
        assert(empty.push(a) =~= seq![a]);
        seq![a].lemma_flatten_push(b);
        assert(seq![a].push(b) =~= seq![a, b]);
        assert(empty.flatten() + a =~= a);
    }

    /// Three groups, put one behind the other.
    pub proof fn flatten_three(a: Seq<Value>, b: Seq<Value>, c: Seq<Value>)
        ensures
            seq![a, b, c].flatten() == a + b + c,
    {
        Segments::flatten_two(a, b);
        seq![a, b].lemma_flatten_push(c);
        assert(seq![a, b].push(c) =~= seq![a, b, c]);
    }

    /// Puts groups of operands one behind the other, and gives their sizes.
    pub fn compute_segment_sizes(operands: Vec<Vec<Value>>) -> (flat: (Vec<Value>, Vec<u32>))
        requires
            Segments::fit(Segments::groups(operands@)),
        ensures
            flat.0@ == Segments::groups(operands@).flatten(),
            flat.1@ == Segments::sizes(Segments::groups(operands@)),
    {
        let ghost groups = Segments::groups(operands@);
        let mut values: Vec<Value> = Vec::new();
        let mut sizes: Vec<u32> = Vec::new();
        assert(groups.take(0) =~= Seq::<Seq<Value>>::empty());
        for i in 0..operands.len()
            invariant
                groups == Segments::groups(operands@),
                Segments::fit(groups),
                values@ == groups.take(i as int).flatten(),
                sizes@ == Segments::sizes(groups).take(i as int),
        {
            proof {
                assert(groups.take(i + 1) =~= groups.take(i as int).push(groups[i as int]));
                groups.take(i as int).lemma_flatten_push(groups[i as int]);
                assert(groups[i as int] == operands@[i as int]@);
            }
            values.extend_from_slice(operands[i].as_slice());
            assert(values@ =~= groups.take(i + 1).flatten());
            let size: u32 = operands[i].len() as u32;
            sizes.push(size);
            assert(sizes@ =~= Segments::sizes(groups).take(i + 1));
        }
        assert(groups.take(operands@.len() as int) =~= groups);
        assert(Segments::sizes(groups).take(operands@.len() as int) =~= Segments::sizes(groups));
        (values, sizes)
    }

    /// The operands of a conditional branch, and the sizes of their groups.
    pub fn of_branch(
        condition: Value,
        true_dest_opds: Vec<Value>,
        false_dest_opds: Vec<Value>,
    ) -> (flat: (Vec<Value>, Vec<u32>))
        requires
            true_dest_opds@.len() <= u32::MAX,
            false_dest_opds@.len() <= u32::MAX,
        ensures
            flat.0@ == seq![condition] + true_dest_opds@ + false_dest_opds@,
            flat.1@ == seq![1u32, true_dest_opds@.len() as u32, false_dest_opds@.len() as u32],
    {
        let ghost t = true_dest_opds@;
        let ghost f = false_dest_opds@;
        let head: Vec<Value> = vec![condition];
        assert(head@ =~= seq![condition]);
        let groups: Vec<Vec<Value>> = vec![head, true_dest_opds, false_dest_opds];
        let ghost views = Segments::groups(groups@);
        proof {
            assert(views =~= seq![seq![condition], t, f]);
            Segments::flatten_three(seq![condition], t, f);
        }
        let flat = Segments::compute_segment_sizes(groups);
        assert(flat.1@ =~= seq![1u32, t.len() as u32, f.len() as u32]);
        flat
    }
}

impl OpView {
    /// Where the segment begins.
    pub open spec fn segment_start(self, i: int) -> int {
        Segments::total(self.segments.take(i))
    }

    /// Is there such a segment, and are its operands there?
    pub open spec fn has_segment(self, i: int) -> bool {
        0 <= i < self.segments.len() && self.segment_start(i + 1) <= self.operands.len()
    }

    /// The operands of the segment.
    pub open spec fn segment(self, i: int) -> Seq<Value> {
        self.operands.subrange(self.segment_start(i), self.segment_start(i) + self.segments[i])
    }

    /// The size of the segment; a segment that is not there has none.
    pub open spec fn segment_size(self, i: int) -> u32 {
        if 0 <= i < self.segments.len() {
            self.segments[i]
        } else {
            0
        }
    }

    /// A segment lies within the operands.
    pub proof fn segment_in_range(self, i: int)
        requires
            self.has_segment(i),
        ensures
            0 <= self.segment_start(i),
            self.segment_start(i + 1) == self.segment_start(i) + self.segments[i],
            self.segment_start(i) + self.segments[i] <= self.operands.len(),
            self.segment(i).len() == self.segments[i],
    {
        Segments::total_step(self.segments, i);
        Segments::total_monotonic(self.segments, i, i + 1);
    }

    /// An earlier segment is there if a later one is.
    pub proof fn earlier_segment(self, i: int, j: int)
        requires
            self.has_segment(j),
            0 <= i <= j,
        ensures
            self.has_segment(i),
    {
        Segments::total_monotonic(self.segments, i + 1, j + 1);
    }

    /// If the sizes add up to the number of operands, every segment is there.
    pub proof fn all_segments_there(self)
        requires
            Segments::total(self.segments) == self.operands.len(),
        ensures
            forall|i: int| 0 <= i < self.segments.len() ==> #[trigger] self.has_segment(i),
    {
        let n = self.segments.len() as int;
        assert(self.segments.take(n) =~= self.segments);
        assert forall|i: int| 0 <= i < n implies #[trigger] self.has_segment(i) by {
            Segments::total_monotonic(self.segments, i + 1, n);
        }
    }

    /// An operation whose operands are groups, one behind the other, has those groups as its
    /// segments.
    pub proof fn segment_is_group(self, groups: Seq<Seq<Value>>, i: int)
        requires
            Segments::fit(groups),
            self.operands == groups.flatten(),
            self.segments == Segments::sizes(groups),
            0 <= i < groups.len(),
        ensures
            self.segments.len() == groups.len(),
            self.has_segment(i),
            self.segment(i) == groups[i],
            self.segments[i] == groups[i].len(),
    {
        Segments::cut_out(groups, i);
        Segments::total_step(self.segments, i);
    }
}

impl OpView {
    /// The segments follow one another, from the first operand on: each begins where the one before
    /// it ends, is as long as its size says, and holds the operands that stand there, in their order.
    pub proof fn segments_follow(self, i: int)
        requires
            self.has_segment(i),
        ensures
            self.segment_start(0) == 0,
            0 <= self.segment_start(i),
            self.segment_start(i + 1) == self.segment_start(i) + self.segments[i],
            self.segment_start(i + 1) <= self.operands.len(),
            self.segment_size(i) == self.segments[i],
            self.segment(i).len() == self.segments[i],
            forall|k: int|
                0 <= k < self.segments[i] ==> #[trigger] self.segment(i)[k]
                    == self.operands[self.segment_start(i) + k],
    {
        assert(self.segments.take(0).len() == 0);
        self.segment_in_range(i);
    }

    /// A segment is there if and only if it has a size and its operands are there. One that has no
    /// size is empty.
    pub proof fn segment_there(self, i: int)
        ensures
            self.has_segment(i) <==> 0 <= i < self.segments.len() && self.segment_start(i)
                + self.segments[i] <= self.operands.len(),
            i < 0 || i >= self.segments.len() ==> self.segment_size(i) == 0,
    {
        if 0 <= i < self.segments.len() {
            Segments::total_step(self.segments, i);
        }
    }

    /// Where each of three segments begins and ends.
    pub(crate) proof fn three_starts(self)
        requires
            self.segments.len() == 3,
        ensures
            self.segment_start(0) == 0,
            self.segment_start(1) == self.segments[0],
            self.segment_start(2) == self.segments[0] + self.segments[1],
            self.segment_start(3) == self.segments[0] + self.segments[1] + self.segments[2],
            Segments::total(self.segments) == self.segment_start(3),
    {
        assert(self.segments.take(0).len() == 0);
        Segments::total_step(self.segments, 0);
        Segments::total_step(self.segments, 1);
        Segments::total_step(self.segments, 2);
        assert(self.segments.take(3) =~= self.segments);
    }

    /// Where each of two segments begins and ends.
    pub(crate) proof fn two_starts(self)
        requires
            self.segments.len() == 2,
        ensures
            self.segment_start(0) == 0,
            self.segment_start(1) == self.segments[0],
            self.segment_start(2) == self.segments[0] + self.segments[1],
            Segments::total(self.segments) == self.segment_start(2),
    {
        assert(self.segments.take(0).len() == 0);
        Segments::total_step(self.segments, 0);
        Segments::total_step(self.segments, 1);
        assert(self.segments.take(2) =~= self.segments);
    }
}

impl Context {
    /// Where a segment of the operands of an operation begins.
    pub(crate) fn segment_start(&self, op: OpId, seg_idx: usize) -> (start: usize)
        requires
            self@.ops.contains_key(op),
            seg_idx <= self@.ops[op].segments.len(),
            self@.ops[op].segment_start(seg_idx as int) <= self@.ops[op].operands.len(),
        ensures
            start == self@.ops[op].segment_start(seg_idx as int),
    {
        let sizes = self.segments(op);
        let count: usize = self.operands(op).len();
        let ghost view = self@.ops[op];
        let mut start: usize = 0;
        assert(sizes@.take(0).len() == 0);
        for i in 0..seg_idx
            invariant
                seg_idx <= sizes@.len(),
                sizes@ == view.segments,
                count == view.operands.len(),
                view.segment_start(seg_idx as int) <= count,
                start == view.segment_start(i as int),
        {
            proof {
                Segments::total_step(view.segments, i as int);
                Segments::total_monotonic(view.segments, i + 1, seg_idx as int);
            }
            start = start + sizes[i] as usize;
        }
        start
    }

    /// Is there such a segment, and are its operands there?
    pub fn has_segment(&self, op: OpId, seg_idx: usize) -> (b: bool)
        requires
            self@.ops.contains_key(op),
        ensures
            b == self@.ops[op].has_segment(seg_idx as int),
    {
        let sizes = self.segments(op);
        let count: usize = self.operands(op).len();
        let ghost view = self@.ops[op];
        if seg_idx >= sizes.len() {
            return false;
        }
        let end: usize = seg_idx + 1;
        let mut start: usize = 0;
        assert(sizes@.take(0).len() == 0);
        for i in 0..end
            invariant
                end == seg_idx + 1,
                end <= sizes@.len(),
                sizes@ == view.segments,
                count == view.operands.len(),
                start == view.segment_start(i as int),
                start <= count,
                view == self@.ops[op],
        {
            proof {
                Segments::total_step(view.segments, i as int);
                Segments::total_monotonic(view.segments, i + 1, end as int);
            }
            if sizes[i] as usize > count - start {
                return false;
            }
            start = start + sizes[i] as usize;
        }
        true
    }

    /// The operands of a segment.
    pub fn get_segment(&self, op: OpId, seg_idx: usize) -> (segment: Vec<Value>)
        requires
            self@.ops.contains_key(op),
            self@.ops[op].has_segment(seg_idx as int),
        ensures
            segment@ == self@.ops[op].segment(seg_idx as int),
    {
        let ghost view = self@.ops[op];
        proof {
            view.segment_in_range(seg_idx as int);
        }
        let operands = self.operands(op);
        let start: usize = self.segment_start(op, seg_idx);
        let size: usize = self.segments(op)[seg_idx] as usize;
        let count: usize = operands.len();
        let mut segment: Vec<Value> = Vec::new();
        for i in 0..size
            invariant
                start + size <= count == operands@.len(),
                operands@ == view.operands,
                segment@ == operands@.subrange(start as int, start + i),
        {
            segment.push(operands[start + i]);
        }
        segment
    }

    /// The number of operands in a segment, and none if there is no such segment.
    pub fn segment_size(&self, op: OpId, seg_idx: usize) -> (size: u32)
        requires
            self@.ops.contains_key(op),
        ensures
            size == self@.ops[op].segment_size(seg_idx as int),
    {
        let sizes = self.segments(op);
        if seg_idx >= sizes.len() {
            0
        } else {
            sizes[seg_idx]
        }
    }

    /// The number of segments.
    pub fn num_segments(&self, op: OpId) -> (n: usize)
        requires
            self@.ops.contains_key(op),
        ensures
            n == self@.ops[op].segments.len(),
    {
        self.segments(op).len()
    }

    /// Puts an operand at the end of a segment. Gives its position in the segment.
    pub fn push_to_segment(&mut self, op: OpId, seg_idx: usize, operand: Value) -> (idx: usize)
        requires
            old(self).wf(),
            old(self)@.ops.contains_key(op),
            old(self)@.ops[op].has_segment(seg_idx as int),
            old(self)@.ops[op].segments[seg_idx as int] < u32::MAX,
            old(self)@.has_value(operand),
        ensures
            final(self).wf(),
            final(self).extends(old(self).journal()),
            idx == old(self)@.ops[op].segments[seg_idx as int],
            final(self)@ == old(self)@.set_operands(
                op,
                old(self)@.ops[op].operands.insert(
                    old(self)@.ops[op].segment_start(seg_idx + 1),
                    operand,
                ),
                old(self)@.ops[op].segments.update(seg_idx as int, (idx + 1) as u32),
            ),
    {
        let ghost view = self@.ops[op];
        proof {
            view.segment_in_range(seg_idx as int);
        }
        let mut sizes = self.segments(op);
        let mut operands = self.operands(op);
        let count: usize = operands.len();
        assert(count == view.operands.len());
        let idx: usize = sizes[seg_idx] as usize;
        let at: usize = self.segment_start(op, seg_idx) + idx;
        operands.insert(at, operand);
        sizes[seg_idx] = sizes[seg_idx] + 1;
        proof {
            reveal(Ir::wf);
            let before = self@;
            assert forall|i: int| 0 <= i < operands@.len() implies before.has_value(
                #[trigger] operands@[i],
            ) by {
                if i < at {
                    assert(operands@[i] == before.ops[op].operands[i]);
                } else if i > at {
                    assert(operands@[i] == before.ops[op].operands[i - 1]);
                }
            }
        }
        self.set_operands(op, operands, sizes);
        idx
    }

    /// Takes an operand out of a segment.
    pub fn remove_from_segment(&mut self, op: OpId, seg_idx: usize, idx: usize) -> (removed: Value)
        requires
            old(self).wf(),
            old(self)@.ops.contains_key(op),
            old(self)@.ops[op].has_segment(seg_idx as int),
            idx < old(self)@.ops[op].segments[seg_idx as int],
        ensures
            final(self).wf(),
            final(self).extends(old(self).journal()),
            removed == old(self)@.ops[op].segment(seg_idx as int)[idx as int],
            final(self)@ == old(self)@.set_operands(
                op,
                old(self)@.ops[op].operands.remove(
                    old(self)@.ops[op].segment_start(seg_idx as int) + idx,
                ),
                old(self)@.ops[op].segments.update(
                    seg_idx as int,
                    (old(self)@.ops[op].segments[seg_idx as int] - 1) as u32,
                ),
            ),
    {
        let ghost view = self@.ops[op];
        proof {
            view.segment_in_range(seg_idx as int);
        }
        let mut sizes = self.segments(op);
        let mut operands = self.operands(op);
        let count: usize = operands.len();
        assert(count == view.operands.len());
        let at: usize = self.segment_start(op, seg_idx) + idx;
        let removed: Value = operands.remove(at);
        sizes[seg_idx] = sizes[seg_idx] - 1;
        proof {
            reveal(Ir::wf);
            let before = self@;
            assert forall|i: int| 0 <= i < operands@.len() implies before.has_value(
                #[trigger] operands@[i],
            ) by {
                if i < at {
                    assert(operands@[i] == before.ops[op].operands[i]);
                } else {
                    assert(operands@[i] == before.ops[op].operands[i + 1]);
                }
            }
        }
        self.set_operands(op, operands, sizes);
        removed
    }
}

} // verus!
