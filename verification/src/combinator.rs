//! The host's combinator: it gathers each participant's steps and produces, tick by
//! tick, one combined step with every participant's step, forced where a participant
//! had none in time.
use vstd::prelude::*;
use crate::participant::ParticipantId;
use crate::participant_steps::{ParticipantSteps, ids_distinct};
use crate::steps::{Step, Steps, StepInfo};
use crate::tick::TickId;

verus! {

/// Why no combined step could be produced.
#[derive(Debug, Clone, Copy, PartialEq, Eq, Structural)]
pub enum CombinatorError {
    /// No participant has a step for the tick to produce.
    NotReadyToProduceStep { can_provide: usize, can_not_provide: usize },
    OtherError,
}

/// Each participant's incoming steps, and the tick to produce next.
pub struct Combinator<T> {
    pub in_buffers: Vec<(ParticipantId, Steps<T>)>,
    pub tick_id_to_produce: TickId,
}

/// The buffer's front step is for `tick`.
pub open spec fn buffer_ready<T>(b: Steps<T>, tick: u32) -> bool {
    b.infos().len() > 0 && b.infos()[0].tick_id.0 == tick
}

/// How many buffers have a step for `tick` at the front.
pub open spec fn count_ready<T>(bufs: Seq<(ParticipantId, Steps<T>)>, tick: u32) -> nat
    decreases bufs.len(),
{
    if bufs.len() == 0 {
        0
    } else {
        count_ready(bufs.drop_last(), tick) + if buffer_ready(bufs.last().1, tick) { 1nat } else { 0nat }
    }
}

/// The combined step: for each buffer with a step, in buffer order, its front step if
/// it is for `tick`, and otherwise a forced step.
pub open spec fn produced<T>(bufs: Seq<(ParticipantId, Steps<T>)>, tick: u32) -> Seq<(ParticipantId, Step<T>)>
    decreases bufs.len(),
{
    if bufs.len() == 0 {
        Seq::empty()
    } else {
        let p = produced(bufs.drop_last(), tick);
        let b = bufs.last();
        if b.1.infos().len() == 0 {
            p
        } else if buffer_ready(b.1, tick) {
            p.push((b.0, Step::Custom(b.1.infos()[0].step)))
        } else {
            p.push((b.0, Step::Forced))
        }
    }
}

/// Every participant of the combined step has a buffer among `bufs`.
proof fn lemma_produced_ids<T>(bufs: Seq<(ParticipantId, Steps<T>)>, tick: u32)
    ensures
        forall|e: int| 0 <= e < produced(bufs, tick).len() ==> exists|b: int|
            0 <= b < bufs.len() && bufs[b].0 == (#[trigger] produced(bufs, tick)[e]).0,
    decreases bufs.len(),
{
    if bufs.len() > 0 {
        let r = bufs.drop_last();
        lemma_produced_ids(r, tick);
        assert forall|e: int| 0 <= e < produced(bufs, tick).len() implies exists|b: int|
            0 <= b < bufs.len() && bufs[b].0 == (#[trigger] produced(bufs, tick)[e]).0 by {
            if e < produced(r, tick).len() {
                assert(produced(bufs, tick)[e] == produced(r, tick)[e]);
                let b = choose|b: int| 0 <= b < r.len() && r[b].0 == produced(r, tick)[e].0;
                assert(bufs[b] == r[b]);
            } else {
                assert(bufs[bufs.len() - 1].0 == produced(bufs, tick)[e].0);
            }
        }
    }
}

impl<T> Combinator<T> {
    /// Participants have one buffer each, and every buffer is well formed.
    pub open spec fn wf(&self) -> bool {
        &&& ids_distinct(self.in_buffers@)
        &&& forall|b: int| 0 <= b < self.in_buffers@.len() ==> (#[trigger] self.in_buffers@[b]).1.wf()
    }

    pub fn new(tick_id_to_produce: TickId) -> (c: Self)
        ensures
            c.in_buffers@.len() == 0,
            c.tick_id_to_produce == tick_id_to_produce,
            c.wf(),
    {
        Combinator { in_buffers: Vec::new(), tick_id_to_produce }
    }

    /// Gives the participant a new empty buffer, replacing any buffer it had.
    pub fn create_buffer(&mut self, id: ParticipantId)
        requires
            old(self).wf(),
        ensures
            final(self).wf(),
            final(self).tick_id_to_produce == old(self).tick_id_to_produce,
            (exists|i: int| 0 <= i < old(self).in_buffers@.len() && old(self).in_buffers@[i].0 == id)
                ==> final(self).in_buffers@.len() == old(self).in_buffers@.len(),
            !(exists|i: int| 0 <= i < old(self).in_buffers@.len() && old(self).in_buffers@[i].0 == id)
                ==> final(self).in_buffers@.len() == old(self).in_buffers@.len() + 1
                && final(self).in_buffers@.last().0 == id,
            forall|i: int|
                0 <= i < old(self).in_buffers@.len() && old(self).in_buffers@[i].0 != id
                    ==> #[trigger] final(self).in_buffers@[i] == old(self).in_buffers@[i],
            forall|i: int|
                0 <= i < final(self).in_buffers@.len() && (#[trigger] final(self).in_buffers@[i]).0 == id
                    ==> final(self).in_buffers@[i].1.infos().len() == 0 && final(self).in_buffers@[i].1.read_id() == 0
                    && final(self).in_buffers@[i].1.write_id() == 0,
    {
        let mut at: usize = 0;
        while at < self.in_buffers.len()
            invariant
                at <= self.in_buffers@.len(),
                self.in_buffers@ == old(self).in_buffers@,
                self.tick_id_to_produce == old(self).tick_id_to_produce,
                old(self).wf(),
                forall|h: int| 0 <= h < at ==> (#[trigger] self.in_buffers@[h]).0 != id,
            decreases self.in_buffers@.len() - at,
        {
            if self.in_buffers[at].0.0 == id.0 {
                self.in_buffers.set(at, (id, Steps::new()));
                proof {
                    assert forall|i: int, j: int| 0 <= i < j < self.in_buffers@.len() implies (
                    #[trigger] self.in_buffers@[i]).0 != (#[trigger] self.in_buffers@[j]).0 by {
                        if i != at && j != at {
                            assert(self.in_buffers@[i] == old(self).in_buffers@[i]);
                            assert(self.in_buffers@[j] == old(self).in_buffers@[j]);
                        } else if i == at {
                            assert(self.in_buffers@[j] == old(self).in_buffers@[j]);
                        } else {
                            assert(self.in_buffers@[i] == old(self).in_buffers@[i]);
                        }
                    }
                    assert forall|b: int| 0 <= b < self.in_buffers@.len() implies (#[trigger] self.in_buffers@[b]).1.wf() by {
                        if b != at {
                            assert(self.in_buffers@[b] == old(self).in_buffers@[b]);
                        }
                    }
                }
                return;
            }
            at = at + 1;
        }
        self.in_buffers.push((id, Steps::new()));
        proof {
            assert forall|i: int, j: int| 0 <= i < j < self.in_buffers@.len() implies (
            #[trigger] self.in_buffers@[i]).0 != (#[trigger] self.in_buffers@[j]).0 by {
                assert(self.in_buffers@[i] == old(self).in_buffers@[i]);
                if j < old(self).in_buffers@.len() {
                    assert(self.in_buffers@[j] == old(self).in_buffers@[j]);
                }
            }
            assert forall|b: int| 0 <= b < self.in_buffers@.len() implies (#[trigger] self.in_buffers@[b]).1.wf() by {
                if b < old(self).in_buffers@.len() {
                    assert(self.in_buffers@[b] == old(self).in_buffers@[b]);
                }
            }
        }
    }

    /// Queues the step in the participant's buffer, for that buffer's next tick; a
    /// participant without a buffer is ignored.
    pub fn add(&mut self, id: ParticipantId, step: T)
        requires
            old(self).wf(),
            forall|i: int|
                0 <= i < old(self).in_buffers@.len() && (#[trigger] old(self).in_buffers@[i]).0 == id
                    ==> old(self).in_buffers@[i].1.write_id() < u32::MAX,
        ensures
            final(self).wf(),
            final(self).tick_id_to_produce == old(self).tick_id_to_produce,
            final(self).in_buffers@.len() == old(self).in_buffers@.len(),
            forall|i: int|
                0 <= i < old(self).in_buffers@.len() && (#[trigger] old(self).in_buffers@[i]).0 != id
                    ==> final(self).in_buffers@[i] == old(self).in_buffers@[i],
            forall|i: int|
                0 <= i < old(self).in_buffers@.len() && (#[trigger] old(self).in_buffers@[i]).0 == id ==> {
                    let ob = old(self).in_buffers@[i].1;
                    let nb = final(self).in_buffers@[i].1;
                    &&& final(self).in_buffers@[i].0 == id
                    &&& nb.infos() == ob.infos().push(StepInfo { step, tick_id: TickId(ob.write_id()) })
                    &&& nb.write_id() == ob.write_id() + 1
                    &&& nb.read_id() == ob.read_id()
                },
    {
        let mut at: usize = 0;
        while at < self.in_buffers.len()
            invariant
                at <= self.in_buffers@.len(),
                self.in_buffers@ == old(self).in_buffers@,
                self.tick_id_to_produce == old(self).tick_id_to_produce,
                old(self).wf(),
                forall|i: int|
                    0 <= i < old(self).in_buffers@.len() && (#[trigger] old(self).in_buffers@[i]).0 == id
                        ==> old(self).in_buffers@[i].1.write_id() < u32::MAX,
                forall|h: int| 0 <= h < at ==> (#[trigger] self.in_buffers@[h]).0 != id,
            decreases self.in_buffers@.len() - at,
        {
            if self.in_buffers[at].0.0 == id.0 {
                let ghost before = self.in_buffers@;
                self.in_buffers[at].1.push(step);
                proof {
                    assert forall|i: int| 0 <= i < before.len() && i != at implies #[trigger] self.in_buffers@[i] == before[i] by {}
                    assert forall|i: int, j: int| 0 <= i < j < self.in_buffers@.len() implies (
                    #[trigger] self.in_buffers@[i]).0 != (#[trigger] self.in_buffers@[j]).0 by {
                        assert(self.in_buffers@[i].0 == before[i].0);
                        assert(self.in_buffers@[j].0 == before[j].0);
                    }
                    assert forall|b: int| 0 <= b < self.in_buffers@.len() implies (#[trigger] self.in_buffers@[b]).1.wf() by {
                        if b != at {
                            assert(self.in_buffers@[b] == before[b]);
                        }
                    }
                    assert forall|i: int| 0 <= i < before.len() && (#[trigger] before[i]).0 == id implies i == at by {
                        if i != at {
                            assert(before[i].0 != before[at as int].0);
                        }
                    }
                }
                return;
            }
            at = at + 1;
        }
    }

    /// How many participants have a step for the tick to produce at the front of their
    /// buffer, and how many do not.
    pub fn participants_that_can_provide(&self) -> (r: (usize, usize))
        ensures
            r.0 == count_ready(self.in_buffers@, self.tick_id_to_produce.0),
            r.0 + r.1 == self.in_buffers@.len(),
    {
        let mut can: usize = 0;
        let mut cannot: usize = 0;
        let mut i: usize = 0;
        while i < self.in_buffers.len()
            invariant
                i <= self.in_buffers@.len(),
                can == count_ready(self.in_buffers@.take(i as int), self.tick_id_to_produce.0),
                can + cannot == i,
            decreases self.in_buffers@.len() - i,
        {
            proof {
                assert(self.in_buffers@.take(i + 1).drop_last() =~= self.in_buffers@.take(i as int));
            }
            match self.in_buffers[i].1.front_tick_id() {
                Some(first_tick) => {
                    if first_tick.0 != self.tick_id_to_produce.0 {
                        cannot = cannot + 1;
                    } else {
                        can = can + 1;
                    }
                },
                None => {
                    cannot = cannot + 1;
                },
            }
            i = i + 1;
        }
        assert(self.in_buffers@.take(self.in_buffers@.len() as int) =~= self.in_buffers@);
        (can, cannot)
    }

    /// Produces the combined step for the tick to produce, if some participant has a
    /// step for it: each participant with a step at that tick gives it; each with an
    /// older or later step gets a forced step and drops its steps before the tick;
    /// participants with empty buffers are left out. The tick to produce then moves on.
    /// A ready buffer's front step must be the one its queue expects next (the queue
    /// asserts it), and the tick must not be the largest tick id.
    pub fn produce(&mut self) -> (r: Result<ParticipantSteps<T>, CombinatorError>)
        requires
            old(self).wf(),
            old(self).tick_id_to_produce.0 < u32::MAX,
            forall|b: int|
                0 <= b < old(self).in_buffers@.len() && buffer_ready(
                    (#[trigger] old(self).in_buffers@[b]).1,
                    old(self).tick_id_to_produce.0,
                ) ==> old(self).in_buffers@[b].1.infos()[0].tick_id.0 == old(self).in_buffers@[b].1.read_id(),
        ensures
            final(self).wf(),
            count_ready(old(self).in_buffers@, old(self).tick_id_to_produce.0) == 0 ==> r == Err::<
                ParticipantSteps<T>,
                CombinatorError,
            >(
                CombinatorError::NotReadyToProduceStep {
                    can_provide: 0,
                    can_not_provide: old(self).in_buffers@.len() as usize,
                },
            ) && *final(self) == *old(self),
            count_ready(old(self).in_buffers@, old(self).tick_id_to_produce.0) > 0 ==> {
                &&& r matches Ok(ps) && ps.steps@ == produced(old(self).in_buffers@, old(self).tick_id_to_produce.0)
                    && ids_distinct(ps.steps@)
                &&& final(self).tick_id_to_produce.0 == old(self).tick_id_to_produce.0 + 1
                &&& final(self).in_buffers@.len() == old(self).in_buffers@.len()
                &&& forall|b: int| 0 <= b < old(self).in_buffers@.len() ==> {
                    let tick = old(self).tick_id_to_produce.0;
                    let ob = (#[trigger] old(self).in_buffers@[b]).1;
                    let nb = final(self).in_buffers@[b].1;
                    &&& final(self).in_buffers@[b].0 == old(self).in_buffers@[b].0
                    &&& ob.infos().len() == 0 ==> nb == ob
                    &&& buffer_ready(ob, tick) ==> nb.infos() == ob.infos().skip(1) && nb.read_id() == ob.read_id() + 1
                        && nb.write_id() == ob.write_id()
                    &&& ob.infos().len() > 0 && !buffer_ready(ob, tick) ==> nb.read_id() == ob.read_id()
                        && nb.write_id() == ob.write_id() && exists|k: int|
                        0 <= k <= ob.infos().len() && nb.infos() == ob.infos().skip(k) && (forall|j: int|
                            0 <= j < k ==> (#[trigger] ob.infos()[j]).tick_id.0 < tick) && (k < ob.infos().len()
                            ==> ob.infos()[k].tick_id.0 >= tick)
                }
            },
    {
        let (can_provide, can_not_provide) = self.participants_that_can_provide();
        if can_provide == 0 {
            return Err(CombinatorError::NotReadyToProduceStep { can_provide, can_not_provide });
        }
        let tick = self.tick_id_to_produce;
        let ghost bufs = self.in_buffers@;
        let mut combined_step = ParticipantSteps::<T>::new();
        let mut i: usize = 0;
        while i < self.in_buffers.len()
            invariant
                i <= self.in_buffers@.len(),
                self.in_buffers@.len() == bufs.len(),
                bufs == old(self).in_buffers@,
                tick == old(self).tick_id_to_produce,
                self.tick_id_to_produce == tick,
                old(self).wf(),
                forall|b: int|
                    0 <= b < bufs.len() && buffer_ready((#[trigger] bufs[b]).1, tick.0) ==> bufs[b].1.infos()[0].tick_id.0
                        == bufs[b].1.read_id(),
                forall|b: int| i <= b < bufs.len() ==> #[trigger] self.in_buffers@[b] == bufs[b],
                forall|b: int| 0 <= b < bufs.len() ==> (#[trigger] self.in_buffers@[b]).0 == bufs[b].0,
                forall|b: int| 0 <= b < bufs.len() ==> (#[trigger] self.in_buffers@[b]).1.wf(),
                combined_step.steps@ == produced(bufs.take(i as int), tick.0),
                ids_distinct(combined_step.steps@),
                forall|b: int| 0 <= b < i ==> {
                    let ob = (#[trigger] bufs[b]).1;
                    let nb = self.in_buffers@[b].1;
                    &&& ob.infos().len() == 0 ==> nb == ob
                    &&& buffer_ready(ob, tick.0) ==> nb.infos() == ob.infos().skip(1) && nb.read_id() == ob.read_id() + 1
                        && nb.write_id() == ob.write_id()
                    &&& ob.infos().len() > 0 && !buffer_ready(ob, tick.0) ==> nb.read_id() == ob.read_id()
                        && nb.write_id() == ob.write_id() && exists|k: int|
                        0 <= k <= ob.infos().len() && nb.infos() == ob.infos().skip(k) && (forall|j: int|
                            0 <= j < k ==> (#[trigger] ob.infos()[j]).tick_id.0 < tick.0) && (k < ob.infos().len()
                            ==> ob.infos()[k].tick_id.0 >= tick.0)
                },
            decreases self.in_buffers@.len() - i,
        {
            let participant_id = self.in_buffers[i].0;
            let ghost ob = bufs[i as int].1;
            let ghost before = self.in_buffers@;
            proof {
                assert(bufs.take(i + 1).drop_last() =~= bufs.take(i as int));
                assert(bufs.take(i + 1).last() == bufs[i as int]);
                lemma_produced_ids(bufs.take(i as int), tick.0);
                assert forall|e: int| 0 <= e < combined_step.steps@.len() implies (#[trigger] combined_step.steps@[e]).0
                    != participant_id by {
                    let b = choose|b: int| 0 <= b < i && bufs.take(i as int)[b].0 == produced(bufs.take(i as int), tick.0)[e].0;
                    assert(bufs[b].0 != bufs[i as int].0);
                }
            }
            match self.in_buffers[i].1.front_tick_id() {
                Some(first_tick) => {
                    if first_tick.0 == tick.0 {
                        let popped = self.in_buffers[i].1.pop();
                        let info = match popped {
                            Some(info) => info,
                            None => {
                                proof {
                                    assert(false);
                                }
                                return Err(CombinatorError::OtherError);
                            },
                        };
                        combined_step.insert(participant_id, Step::Custom(info.step));
                    } else {
                        combined_step.insert(participant_id, Step::Forced);
                        self.in_buffers[i].1.pop_up_to(tick);
                    }
                },
                None => {},
            }
            proof {
                assert forall|b: int| 0 <= b < bufs.len() && b != i implies #[trigger] self.in_buffers@[b] == before[b] by {}
                assert(!(exists|x: int| 0 <= x < produced(bufs.take(i as int), tick.0).len() && produced(bufs.take(i as int), tick.0)[x].0 == participant_id));
                assert(combined_step.steps@ =~= produced(bufs.take(i + 1), tick.0));
            }
            i = i + 1;
        }
        self.tick_id_to_produce = TickId(self.tick_id_to_produce.0 + 1);
        proof {
            assert(bufs.take(bufs.len() as int) =~= bufs);
            assert forall|x: int, y: int| 0 <= x < y < self.in_buffers@.len() implies (
            #[trigger] self.in_buffers@[x]).0 != (#[trigger] self.in_buffers@[y]).0 by {
                assert(bufs[x].0 != bufs[y].0);
            }
        }
        Ok(combined_step)
    }
}


/// The entry a buffer with steps gives to the combined step for `tick`: its front step
/// where that is for the tick, and a forced step otherwise.
pub open spec fn entry_for<T>(b: (ParticipantId, Steps<T>), tick: u32) -> (ParticipantId, Step<T>) {
    if b.1.infos()[0].tick_id.0 == tick {
        (b.0, Step::Custom(b.1.infos()[0].step))
    } else {
        (b.0, Step::Forced)
    }
}

/// The combined step for `tick` of buffers kept per participant holds one entry for
/// each participant whose buffer has a step, and only those: its front step where that
/// step is for the tick, and otherwise a forced step (a participant whose step is
/// behind or ahead is not left out); a participant with an empty buffer has no entry.
pub proof fn lemma_produced_entries<T>(bufs: Seq<(ParticipantId, Steps<T>)>, tick: u32)
    requires
        ids_distinct(bufs),
    ensures
        forall|b: int|
            0 <= b < bufs.len() && (#[trigger] bufs[b]).1.infos().len() > 0 ==> produced(bufs, tick).contains(
                entry_for(bufs[b], tick),
            ),
        forall|e: int|
            0 <= e < produced(bufs, tick).len() ==> exists|b: int|
                0 <= b < bufs.len() && bufs[b].1.infos().len() > 0 && #[trigger] produced(bufs, tick)[e] == entry_for(
                    bufs[b],
                    tick,
                ),
        forall|b: int|
            0 <= b < bufs.len() && (#[trigger] bufs[b]).1.infos().len() == 0 ==> forall|e: int|
                0 <= e < produced(bufs, tick).len() ==> produced(bufs, tick)[e].0 != bufs[b].0,
        ids_distinct(produced(bufs, tick)),
    decreases bufs.len(),
{
    if bufs.len() > 0 {
        let r = bufs.drop_last();
        let last = bufs.last();
        assert forall|i: int, j: int| 0 <= i < j < r.len() implies (#[trigger] r[i]).0 != (#[trigger] r[j]).0 by {
            assert(r[i] == bufs[i] && r[j] == bufs[j]);
        }
        lemma_produced_entries(r, tick);
        let p = produced(r, tick);
        let q = produced(bufs, tick);
        assert(last == bufs[bufs.len() - 1]);
        assert forall|e: int| 0 <= e < p.len() implies p[e].0 != last.0 by {
            let b = choose|b: int| 0 <= b < r.len() && r[b].1.infos().len() > 0 && p[e] == entry_for(r[b], tick);
            assert(r[b] == bufs[b]);
            assert(bufs[b].0 != bufs[bufs.len() - 1].0);
        }
        if last.1.infos().len() > 0 {
            assert(q == p.push(entry_for(last, tick)));
        } else {
            assert(q == p);
        }
        assert forall|b: int| 0 <= b < bufs.len() && (#[trigger] bufs[b]).1.infos().len() > 0 implies q.contains(
            entry_for(bufs[b], tick),
        ) by {
            if b < r.len() {
                assert(r[b] == bufs[b]);
                let e = choose|e: int| 0 <= e < p.len() && p[e] == entry_for(r[b], tick);
                assert(q[e] == p[e]);
            } else {
                assert(q[p.len() as int] == entry_for(last, tick));
            }
        }
        assert forall|e: int| 0 <= e < q.len() implies exists|b: int|
            0 <= b < bufs.len() && bufs[b].1.infos().len() > 0 && #[trigger] q[e] == entry_for(bufs[b], tick) by {
            if e < p.len() {
                assert(q[e] == p[e]);
                let b = choose|b: int| 0 <= b < r.len() && r[b].1.infos().len() > 0 && p[e] == entry_for(r[b], tick);
                assert(r[b] == bufs[b]);
            } else {
                assert(q[e] == entry_for(bufs[bufs.len() - 1], tick));
            }
        }
        assert forall|b: int| 0 <= b < bufs.len() && (#[trigger] bufs[b]).1.infos().len() == 0 implies forall|e: int|
            0 <= e < q.len() ==> q[e].0 != bufs[b].0 by {
            assert forall|e: int| 0 <= e < q.len() implies q[e].0 != bufs[b].0 by {
                if b < r.len() {
                    assert(r[b] == bufs[b]);
                    if e < p.len() {
                        assert(q[e] == p[e]);
                    } else {
                        assert(q[e].0 == last.0);
                        assert(bufs[b].0 != bufs[bufs.len() - 1].0);
                    }
                } else {
                    assert(q == p);
                }
            }
        }
        assert forall|i: int, j: int| 0 <= i < j < q.len() implies (#[trigger] q[i]).0 != (#[trigger] q[j]).0 by {
            if j < p.len() {
                assert(q[i] == p[i] && q[j] == p[j]);
            } else {
                assert(q[i] == p[i]);
            }
        }
    }
}

} // verus!
