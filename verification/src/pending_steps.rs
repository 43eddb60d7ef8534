//! Steps that arrive out of order, held in a window of slots by tick until they can be
//! taken in order from the front.
use vstd::prelude::*;
use crate::tick::TickId;
use crate::decimal::string_of;

verus! {

/// A step and the tick it is for.
#[derive(Debug)]
pub struct PendingStepInfo<StepT> {
    pub step: StepT,
    pub tick_id: TickId,
}

impl<StepT: Clone> Clone for PendingStepInfo<StepT> {
    /// A copy with the same tick id and a clone of the step.
    fn clone(&self) -> (r: Self)
        ensures
            r.tick_id == self.tick_id,
            cloned(self.step, r.step),
    {
        PendingStepInfo { step: self.step.clone(), tick_id: self.tick_id }
    }
}

/// A window of `capacity` slots, the first for the front tick; each slot holds the step
/// set for its tick, if any. The slots are kept here rather than in discoid's
/// `DiscoidBuffer`: what an outside collection holds can be named to Verus only for a
/// fixed item type, and the items here are generic steps.
pub struct PendingSteps<T> {
    slots: Vec<Option<PendingStepInfo<T>>>,
    front_tick_id: TickId,
    capacity: usize,
}

impl<T: Clone> PendingSteps<T> {
    /// The slots, the first for the front tick.
    pub closed spec fn slots(&self) -> Seq<Option<PendingStepInfo<T>>> {
        self.slots@
    }

    /// The tick that the first slot was for when the window was made or last moved by
    /// `discard_up_to`.
    pub closed spec fn front_tick(&self) -> u32 {
        self.front_tick_id.0
    }

    /// How many slots the window has.
    pub closed spec fn window(&self) -> nat {
        self.capacity as nat
    }

    /// The window has exactly its capacity of slots.
    pub open spec fn wf(&self) -> bool {
        self.slots().len() == self.window()
    }

    /// A window of `window_size` empty slots starting at `tick_id`.
    pub fn new(window_size: usize, tick_id: TickId) -> (s: Self)
        ensures
            s.wf(),
            s.slots() == Seq::new(window_size as nat, |i: int| None::<PendingStepInfo<T>>),
            s.front_tick() == tick_id.0,
            s.window() == window_size,
    {
        let mut slots: Vec<Option<PendingStepInfo<T>>> = Vec::new();
        let mut i: usize = 0;
        while i < window_size
            invariant
                i <= window_size,
                slots@ == Seq::new(i as nat, |j: int| None::<PendingStepInfo<T>>),
            decreases window_size - i,
        {
            slots.push(None);
            assert(slots@ =~= Seq::new((i + 1) as nat, |j: int| None::<PendingStepInfo<T>>));
            i = i + 1;
        }
        PendingSteps { slots, front_tick_id: tick_id, capacity: window_size }
    }

    /// Puts `step` in the slot of `tick_id`. A tick at or past the window's size from the
    /// front tick is refused; the tick must not be before the front tick (the tick
    /// arithmetic panics there).
    pub fn set(&mut self, tick_id: TickId, step: T) -> (r: Result<(), String>)
        requires
            old(self).wf(),
            tick_id.0 >= old(self).front_tick(),
        ensures
            final(self).wf(),
            final(self).front_tick() == old(self).front_tick(),
            final(self).window() == old(self).window(),
            tick_id.0 - old(self).front_tick() >= (old(self).window() as u32) ==> (r matches Err(m)
                && m@ == "pending_steps: out of scope"@) && final(self).slots() == old(self).slots(),
            tick_id.0 - old(self).front_tick() < (old(self).window() as u32) ==> r is Ok && final(self).slots()
                == old(self).slots().update(
                tick_id.0 - old(self).front_tick(),
                Some(PendingStepInfo { step, tick_id }),
            ),
    {
        let index_in_window = tick_id.value() - self.front_tick_id.value();
        if index_in_window >= self.capacity as u32 {
            return Err(string_of("pending_steps: out of scope"));
        }
        self.slots.set(index_in_window as usize, Some(PendingStepInfo { step, tick_id }));
        Ok(())
    }

    /// Moves the window on so that it starts at `tick_id`, counted from the front tick
    /// (which itself stays); a tick before the front tick changes nothing. The window
    /// cannot move by more than its size.
    pub fn discard_up_to(&mut self, tick_id: TickId)
        requires
            old(self).wf(),
            tick_id.0 >= old(self).front_tick() ==> tick_id.0 - old(self).front_tick() <= old(self).window(),
        ensures
            final(self).wf(),
            final(self).front_tick() == old(self).front_tick(),
            final(self).window() == old(self).window(),
            tick_id.0 < old(self).front_tick() ==> final(self).slots() == old(self).slots(),
            tick_id.0 >= old(self).front_tick() ==> final(self).slots() == old(self).slots().skip(
                tick_id.0 - old(self).front_tick(),
            ) + Seq::new((tick_id.0 - old(self).front_tick()) as nat, |i: int| None::<PendingStepInfo<T>>),
    {
        let count = tick_id.delta(self.front_tick_id);
        if count < 0 {
            return;
        }
        self.discard_front(count as usize);
    }

    /// Empties the first `count` slots and moves them to the back.
    fn discard_front(&mut self, count: usize)
        requires
            old(self).wf(),
            count <= old(self).window(),
        ensures
            final(self).wf(),
            final(self).front_tick() == old(self).front_tick(),
            final(self).window() == old(self).window(),
            final(self).slots() == old(self).slots().skip(count as int) + Seq::new(
                count as nat,
                |i: int| None::<PendingStepInfo<T>>,
            ),
    {
        let mut k: usize = 0;
        while k < count
            invariant
                k <= count,
                count <= old(self).window(),
                self.front_tick_id == old(self).front_tick_id,
                self.capacity == old(self).capacity,
                old(self).slots@.len() == old(self).capacity,
                self.slots@ == old(self).slots@.skip(k as int) + Seq::new(k as nat, |i: int| None::<PendingStepInfo<T>>),
            decreases count - k,
        {
            let _gone = self.slots.remove(0);
            self.slots.push(None);
            assert(self.slots@ =~= old(self).slots@.skip(k + 1) + Seq::new((k + 1) as nat, |i: int| None::<PendingStepInfo<T>>));
            k = k + 1;
        }
    }

    /// Whether the first slot is empty.
    pub fn is_empty(&self) -> (b: bool)
        requires
            self.wf(),
        ensures
            b == (self.slots().len() == 0 || self.slots()[0] is None),
    {
        self.slots.len() == 0 || self.slots[0].is_none()
    }

    /// Takes a copy of the first slot's step and moves the window on by one slot (the
    /// front tick stays). The first slot must hold a step.
    pub fn pop(&mut self) -> (r: PendingStepInfo<T>)
        requires
            old(self).wf(),
            old(self).slots().len() > 0,
            old(self).slots()[0] is Some,
        ensures
            final(self).wf(),
            final(self).front_tick() == old(self).front_tick(),
            final(self).window() == old(self).window(),
            r.tick_id == old(self).slots()[0]->Some_0.tick_id,
            cloned(old(self).slots()[0]->Some_0.step, r.step),
            final(self).slots() == old(self).slots().skip(1) + seq![None::<PendingStepInfo<T>>],
    {
        let value = self.slots[0].as_ref().unwrap().clone();
        self.discard_front(1);
        assert(Seq::new(1nat, |i: int| None::<PendingStepInfo<T>>) =~= seq![None::<PendingStepInfo<T>>]);
        value
    }

    /// The tick of the step in the first slot, if any.
    pub fn front_tick_id(&self) -> (r: Option<TickId>)
        requires
            self.wf(),
        ensures
            self.slots().len() > 0 && self.slots()[0] is Some ==> r == Some(self.slots()[0]->Some_0.tick_id),
            self.slots().len() == 0 || self.slots()[0] is None ==> r is None,
    {
        if self.slots.len() == 0 {
            return None;
        }
        match &self.slots[0] {
            Some(info) => Some(info.tick_id),
            None => None,
        }
    }
}

} // verus!
