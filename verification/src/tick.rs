//! Tick identifiers: the index of a fixed simulation step.
use vstd::prelude::*;

verus! {

/// The identifier of a simulation tick.
#[derive(Debug, Clone, Copy, PartialEq, Eq, Structural, Default)]
pub struct TickId(pub u32);

impl View for TickId {
    type V = TickId;

    open spec fn view(&self) -> TickId {
        *self
    }
}

impl TickId {
    pub fn new(value: u32) -> (t: TickId)
        ensures
            t.0 == value,
    {
        TickId(value)
    }

    pub fn value(&self) -> (v: u32)
        ensures
            v == self.0,
    {
        self.0
    }

    /// The tick `count` ticks later (the tick arithmetic panics on overflow).
    pub fn plus(self, count: u32) -> (t: TickId)
        requires
            self.0 + count <= u32::MAX,
        ensures
            t.0 == self.0 + count,
    {
        TickId(self.0 + count)
    }

    /// The tick `count` ticks earlier (the tick arithmetic panics on underflow).
    pub fn minus(self, count: u32) -> (t: TickId)
        requires
            count <= self.0,
        ensures
            t.0 == self.0 - count,
    {
        TickId(self.0 - count)
    }

    /// The signed number of ticks from `other` to `self`.
    pub fn delta(self, other: TickId) -> (d: i64)
        ensures
            d == self.0 - other.0,
    {
        (self.0 as i64) - (other.0 as i64)
    }
}

} // verus!
