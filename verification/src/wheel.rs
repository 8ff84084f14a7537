//! A single-level timing wheel: a ring of 64 slots and a cursor.
//!
//! Each slot holds the timers due when the cursor next reaches it, as a
//! sequence of (residual, payload) pairs in insertion order. The residual is
//! meaningful only to the owner of the wheel: levels above the finest one use
//! it to remember how many finer-grained ticks remain after the slot is
//! drained and its contents are cascaded downwards.

use vstd::prelude::*;

verus! {

/// One level of the hierarchical scheduler: 64 slots and a cursor in [0, 64).
pub struct TimingWheel<T> {
    current: usize,
    ring: Vec<Vec<(usize, T)>>,
}

impl<T> TimingWheel<T> {
    /// The cursor: the index of the slot that is drained by the next `tick`.
    pub closed spec fn cur(self) -> int {
        self.current as int
    }

    /// The 64 slots, each a sequence of (residual, payload) pairs in
    /// insertion order.
    pub closed spec fn slots(self) -> Seq<Seq<(usize, T)>> {
        self.ring@.map_values(|v: Vec<(usize, T)>| v@)
    }

    pub open spec fn wf(self) -> bool {
        0 <= self.cur() < 64 && self.slots().len() == 64
    }

    /// A fresh wheel: cursor at 0, every slot empty.
    pub fn new() -> (w: Self)
        ensures
            w.wf(),
            w.cur() == 0,
            forall|i: int| 0 <= i < 64 ==> w.slots()[i] == Seq::<(usize, T)>::empty(),
    {
        let mut ring: Vec<Vec<(usize, T)>> = Vec::new();
        let mut i: usize = 0;
        while i < 64
            invariant
                i <= 64,
                ring@.len() == i as int,
                forall|k: int| 0 <= k < i ==> (#[trigger] ring@[k])@ == Seq::<(usize, T)>::empty(),
            decreases 64 - i,
        {
            ring.push(Vec::new());
            i += 1;
        }
        let w = TimingWheel { current: 0, ring };
        assert forall|j: int| 0 <= j < 64 implies w.slots()[j] == Seq::<(usize, T)>::empty() by {
            assert(w.slots()[j] == w.ring@[j]@);
        }
        w
    }

    /// The cursor as an executable value.
    pub fn position(&self) -> (p: usize)
        ensures
            p as int == self.cur(),
    {
        self.current
    }

    /// Append a timer into the slot `offset` steps ahead of the cursor,
    /// wrapping around the ring. The timer is stored after everything already
    /// in that slot, so insertion order within a slot is preserved.
    pub fn schedule(&mut self, offset: usize, ticks: usize, timer: T)
        requires
            old(self).wf(),
            offset < 64,
        ensures
            final(self).wf(),
            final(self).cur() == old(self).cur(),
            final(self).slots() == old(self).slots().update(
                (old(self).cur() + offset) % 64,
                old(self).slots()[(old(self).cur() + offset) % 64].push((ticks, timer)),
            ),
    {
        let idx = (self.current + offset) % 64;
        let ghost before = self.ring@;
        let mut slot = self.ring.remove(idx);
        slot.push((ticks, timer));
        self.ring.insert(idx, slot);
        proof {
            assert(self.ring@ =~= before.update(idx as int, self.ring@[idx as int]));
            assert(self.ring@[idx as int]@ =~= before[idx as int]@.push((ticks, timer)));
            assert(self.slots() =~= old(self).slots().update(
                (old(self).cur() + offset) % 64,
                old(self).slots()[(old(self).cur() + offset) % 64].push((ticks, timer)),
            ));
        }
    }

    /// Drain the slot under the cursor, leaving it empty, and advance the
    /// cursor by one, wrapping at 64. Returns the drained timers in insertion
    /// order.
    pub fn tick(&mut self) -> (fired: Vec<(usize, T)>)
        requires
            old(self).wf(),
        ensures
            final(self).wf(),
            fired@ == old(self).slots()[old(self).cur()],
            final(self).cur() == (old(self).cur() + 1) % 64,
            final(self).slots() == old(self).slots().update(
                old(self).cur(),
                Seq::<(usize, T)>::empty(),
            ),
    {
        let ghost before = self.ring@;
        let fired = self.ring.remove(self.current);
        self.ring.insert(self.current, Vec::new());
        let ghost cur0 = self.current as int;
        proof {
            assert(self.ring@ =~= before.update(cur0, self.ring@[cur0]));
            assert(self.ring@[cur0]@ =~= Seq::<(usize, T)>::empty());
            assert(self.slots() =~= old(self).slots().update(
                old(self).cur(),
                Seq::<(usize, T)>::empty(),
            ));
        }
        self.current = (self.current + 1) % 64;
        fired
    }
}

impl<T> Default for TimingWheel<T> {
    /// Same as `new`: cursor at 0, every slot empty.
    fn default() -> (w: Self)
        ensures
            w.wf(),
            w.cur() == 0,
            forall|i: int| 0 <= i < 64 ==> w.slots()[i] == Seq::<(usize, T)>::empty(),
    {
        TimingWheel::new()
    }
}

} // verus!
