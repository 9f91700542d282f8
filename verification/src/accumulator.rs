//! First-layer sums of both sides, and a stack of them for the search tree.
use vstd::prelude::*;
use crate::features::MAX_HIDDEN1;
use crate::squares::MAX_DEPTH;

verus! {

/// First-layer sums as white and as black see the board.
#[derive(Clone, Copy)]
pub struct DualAccumulator {
    pub white_pre: [i16; MAX_HIDDEN1],
    pub black_pre: [i16; MAX_HIDDEN1],
}

impl Default for DualAccumulator {
    fn default() -> (r: Self)
        ensures
            r.is_zero(),
    {
        DualAccumulator { white_pre: [0; MAX_HIDDEN1], black_pre: [0; MAX_HIDDEN1] }
    }
}

impl DualAccumulator {
    /// All sums are zero.
    pub open spec fn is_zero(&self) -> bool {
        &&& forall|i: int| 0 <= i < 512 ==> #[trigger] self.white_pre@[i] == 0
        &&& forall|i: int| 0 <= i < 512 ==> #[trigger] self.black_pre@[i] == 0
    }

    pub fn copy_from(&mut self, other: &DualAccumulator)
        ensures
            *final(self) == *other,
    {
        self.white_pre = other.white_pre;
        self.black_pre = other.black_pre;
    }
}

/// A stack of accumulators with a fixed number of places. Pushing onto a full
/// stack and popping the last place do nothing.
pub struct DualAccumulatorStack {
    pub accumulators: Vec<DualAccumulator>,
    pub depth: usize,
}

impl Default for DualAccumulatorStack {
    fn default() -> (r: Self)
        ensures
            r.wf(),
            r.depth == 0,
            forall|i: int| 0 <= i < MAX_DEPTH ==> (#[trigger] r.accumulators@[i]).is_zero(),
    {
        let mut accumulators: Vec<DualAccumulator> = Vec::with_capacity(MAX_DEPTH);
        let mut i: usize = 0;
        while i < MAX_DEPTH
            invariant
                i <= MAX_DEPTH,
                accumulators@.len() == i,
                forall|k: int| 0 <= k < i ==> (#[trigger] accumulators@[k]).is_zero(),
            decreases MAX_DEPTH - i,
        {
            accumulators.push(DualAccumulator { white_pre: [0; MAX_HIDDEN1], black_pre: [0; MAX_HIDDEN1] });
            i = i + 1;
        }
        DualAccumulatorStack { accumulators, depth: 0 }
    }
}

impl DualAccumulatorStack {
    pub open spec fn wf(&self) -> bool {
        self.accumulators@.len() == MAX_DEPTH && self.depth < MAX_DEPTH
    }

    /// The accumulator on top.
    pub open spec fn top(&self) -> DualAccumulator {
        self.accumulators@[self.depth as int]
    }

    pub fn new() -> (r: Self)
        ensures
            r.wf(),
            r.depth == 0,
            forall|i: int| 0 <= i < MAX_DEPTH ==> (#[trigger] r.accumulators@[i]).is_zero(),
    {
        DualAccumulatorStack::default()
    }

    pub fn current(&self) -> (r: &DualAccumulator)
        requires
            self.wf(),
        ensures
            *r == self.top(),
    {
        &self.accumulators[self.depth]
    }

    pub fn current_mut(&mut self) -> (r: &mut DualAccumulator)
        requires
            old(self).wf(),
        ensures
            *r == old(self).top(),
            final(self).depth == old(self).depth,
            final(self).accumulators@ == old(self).accumulators@.update(old(self).depth as int, *final(r)),
    {
        &mut self.accumulators[self.depth]
    }

    /// Copies the top onto a new place; a full stack stays as it is.
    pub fn push(&mut self)
        requires
            old(self).wf(),
        ensures
            final(self).wf(),
            final(self).top() == old(self).top(),
            old(self).depth + 1 < MAX_DEPTH ==> final(self).depth == old(self).depth + 1 && final(
                self).accumulators@ == old(self).accumulators@.update(old(self).depth + 1, old(self).top()),
            old(self).depth + 1 >= MAX_DEPTH ==> *final(self) == *old(self),
    {
        if self.depth + 1 < MAX_DEPTH {
            let top: DualAccumulator = self.accumulators[self.depth];
            self.accumulators.set(self.depth + 1, top);
            self.depth = self.depth + 1;
        }
    }

    /// Drops the top; the last place stays.
    pub fn pop(&mut self)
        requires
            old(self).wf(),
        ensures
            final(self).wf(),
            final(self).accumulators == old(self).accumulators,
            final(self).depth == (if old(self).depth > 0 { old(self).depth - 1 } else { 0 }),
    {
        if self.depth > 0 {
            self.depth = self.depth - 1;
        }
    }

    pub fn reset(&mut self)
        requires
            old(self).wf(),
        ensures
            final(self).wf(),
            final(self).accumulators == old(self).accumulators,
            final(self).depth == 0,
    {
        self.depth = 0;
    }
}

/// Below a full stack, popping after pushing gives back the parent's place and
/// everything under it, whatever was done to the pushed place.
pub proof fn law_push_pop(before: DualAccumulatorStack, pushed: Seq<DualAccumulator>, child: DualAccumulator)
    requires
        before.wf(),
        before.depth + 1 < MAX_DEPTH,
        pushed == before.accumulators@.update(before.depth + 1, child),
    ensures
        forall|i: int| 0 <= i <= before.depth ==> #[trigger] pushed[i] == before.accumulators@[i],
{
}

} // verus!
