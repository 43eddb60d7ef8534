//! The steps of all participants for one tick.
use vstd::prelude::*;
use crate::participant::ParticipantId;
use crate::steps::Step;

verus! {

/// Each participant's step for one tick, at most one per participant.
pub struct ParticipantSteps<T> {
    pub steps: Vec<(ParticipantId, Step<T>)>,
}

/// No participant has two entries.
pub open spec fn ids_distinct<X>(entries: Seq<(ParticipantId, X)>) -> bool {
    forall|i: int, j: int| 0 <= i < j < entries.len() ==> (#[trigger] entries[i]).0 != (#[trigger] entries[j]).0
}

impl<T> ParticipantSteps<T> {
    pub fn new() -> (s: Self)
        ensures
            s.steps@ == Seq::<(ParticipantId, Step<T>)>::empty(),
    {
        ParticipantSteps { steps: Vec::new() }
    }

    /// Sets the participant's step: it replaces the participant's earlier step, or is
    /// added last.
    pub fn insert(&mut self, participant_id: ParticipantId, step: Step<T>)
        requires
            ids_distinct(old(self).steps@),
        ensures
            ids_distinct(final(self).steps@),
            (exists|i: int| 0 <= i < old(self).steps@.len() && old(self).steps@[i].0 == participant_id)
                ==> final(self).steps@ == old(self).steps@.update(
                choose|i: int| 0 <= i < old(self).steps@.len() && old(self).steps@[i].0 == participant_id,
                (participant_id, step),
            ),
            !(exists|i: int| 0 <= i < old(self).steps@.len() && old(self).steps@[i].0 == participant_id)
                ==> final(self).steps@ == old(self).steps@.push((participant_id, step)),
    {
        let mut at: usize = 0;
        while at < self.steps.len()
            invariant
                at <= self.steps@.len(),
                self.steps@ == old(self).steps@,
                ids_distinct(old(self).steps@),
                forall|h: int| 0 <= h < at ==> (#[trigger] self.steps@[h]).0 != participant_id,
            decreases self.steps@.len() - at,
        {
            if self.steps[at].0.0 == participant_id.0 {
                proof {
                    let c = choose|i: int| 0 <= i < old(self).steps@.len() && old(self).steps@[i].0 == participant_id;
                    if c != at as int {
                        if c < at {
                        } else {
                            assert(old(self).steps@[at as int].0 == old(self).steps@[c].0);
                        }
                    }
                    assert(c == at as int);
                }
                self.steps.set(at, (participant_id, step));
                proof {
                    assert forall|i: int, j: int| 0 <= i < j < self.steps@.len() implies (#[trigger] self.steps@[i]).0
                        != (#[trigger] self.steps@[j]).0 by {
                        if i != at && j != at {
                            assert(self.steps@[i] == old(self).steps@[i] && self.steps@[j] == old(self).steps@[j]);
                        } else if i == at {
                            assert(self.steps@[j] == old(self).steps@[j]);
                        } else {
                            assert(self.steps@[i] == old(self).steps@[i]);
                        }
                    }
                }
                return;
            }
            at = at + 1;
        }
        self.steps.push((participant_id, step));
        proof {
            assert forall|i: int, j: int| 0 <= i < j < self.steps@.len() implies (#[trigger] self.steps@[i]).0
                != (#[trigger] self.steps@[j]).0 by {
                assert(self.steps@[i] == old(self).steps@[i]);
                if j < old(self).steps@.len() {
                    assert(self.steps@[j] == old(self).steps@[j]);
                }
            }
        }
    }

    pub fn len(&self) -> (n: usize)
        ensures
            n == self.steps@.len(),
    {
        self.steps.len()
    }

    pub fn is_empty(&self) -> (b: bool)
        ensures
            b == (self.steps@.len() == 0),
    {
        self.steps.len() == 0
    }
}

impl<T> Default for ParticipantSteps<T> {
    /// No participant's step.
    fn default() -> (s: Self)
        ensures
            s.steps@ == Seq::<(ParticipantId, Step<T>)>::empty(),
    {
        Self::new()
    }
}

} // verus!
