//! The seer runs the predicted steps on a game: each update replays every predicted
//! step, from the last authoritative state on, through the game's callback.
use vstd::prelude::*;
use std::marker::PhantomData;
use crate::steps::{Steps, StepInfo};
use crate::tick::TickId;

verus! {

/// A call the seer makes on a game.
pub enum SeerCall<CombinedStepT> {
    PreTicks,
    Tick(CombinedStepT),
    PostTicks,
}

/// What a game does when the seer replays predicted steps. A game may keep a record of
/// the seer's calls, which contracts speak of: one that does says so by
/// `records_calls`, and each call then appends itself to `calls`.
pub trait SeerCallback<CombinedStepT> {
    /// Whether the game keeps a record of the calls (by default it does not).
    open spec fn records_calls(&self) -> bool {
        false
    }

    /// The seer's calls the game has taken so far, in order, where it keeps a record.
    open spec fn calls(&self) -> Seq<SeerCall<CombinedStepT>> {
        Seq::empty()
    }

    /// Before the first replayed tick.
    fn on_pre_ticks(&mut self)
        ensures
            final(self).records_calls() == old(self).records_calls(),
            old(self).records_calls() ==> final(self).calls() == old(self).calls().push(SeerCall::PreTicks),
    ;

    /// For each replayed tick, with its step.
    fn on_tick(&mut self, step: &CombinedStepT)
        ensures
            final(self).records_calls() == old(self).records_calls(),
            old(self).records_calls() ==> final(self).calls() == old(self).calls().push(SeerCall::Tick(*step)),
    ;

    /// After the last replayed tick.
    fn on_post_ticks(&mut self)
        ensures
            final(self).records_calls() == old(self).records_calls(),
            old(self).records_calls() ==> final(self).calls() == old(self).calls().push(SeerCall::PostTicks),
    ;
}

/// The calls one replay of `infos` makes: `on_pre_ticks`, `on_tick` with each step in
/// order, then `on_post_ticks`.
pub open spec fn replay_calls<CombinedStepT>(infos: Seq<StepInfo<CombinedStepT>>) -> Seq<SeerCall<CombinedStepT>> {
    seq![SeerCall::PreTicks] + infos.map_values(|info: StepInfo<CombinedStepT>| SeerCall::Tick(info.step)) + seq![
        SeerCall::PostTicks,
    ]
}

/// The predicted steps that have no authoritative step yet.
pub struct Seer<Callback, CombinedStepT> {
    combined_steps: Steps<CombinedStepT>,
    authoritative_has_changed: bool,
    phantom: PhantomData<Callback>,
}

impl<Callback: SeerCallback<CombinedStepT>, CombinedStepT> Seer<Callback, CombinedStepT> {
    /// The predicted steps.
    pub closed spec fn steps(&self) -> Steps<CombinedStepT> {
        self.combined_steps
    }

    /// Whether an authoritative step arrived since the last update.
    pub closed spec fn changed(&self) -> bool {
        self.authoritative_has_changed
    }

    pub fn new() -> (s: Self)
        ensures
            s.steps().infos() == Seq::<StepInfo<CombinedStepT>>::empty(),
            s.steps().read_id() == 0,
            s.steps().write_id() == 0,
            s.steps().wf(),
            !s.changed(),
    {
        Seer { combined_steps: Steps::new(), authoritative_has_changed: false, phantom: PhantomData }
    }

    /// The predicted steps.
    pub fn predicted_steps(&self) -> (r: &Steps<CombinedStepT>)
        ensures
            *r == self.steps(),
    {
        &self.combined_steps
    }

    /// Replays every predicted step, in order, through the callback: `on_pre_ticks`,
    /// `on_tick` for each step, then `on_post_ticks` (a game that records its calls
    /// holds exactly these after its earlier ones; see `replay_calls`). The steps stay;
    /// the change mark is cleared.
    pub fn update(&mut self, callback: &mut Callback)
        ensures
            final(self).steps() == old(self).steps(),
            !final(self).changed(),
            final(callback).records_calls() == old(callback).records_calls(),
            old(callback).records_calls() ==> final(callback).calls() == old(callback).calls() + replay_calls(
                old(self).steps().infos(),
            ),
    {
        callback.on_pre_ticks();
        let count = self.combined_steps.len();
        let ghost infos = self.combined_steps.infos();
        let ghost start = old(callback).calls().push(SeerCall::PreTicks);
        let mut i: usize = 0;
        while i < count
            invariant
                i <= count,
                count == infos.len(),
                infos == self.combined_steps.infos(),
                self.combined_steps == old(self).combined_steps,
                callback.records_calls() == old(callback).records_calls(),
                callback.records_calls() ==> callback.calls() == start + infos.take(i as int).map_values(
                    |info: StepInfo<CombinedStepT>| SeerCall::Tick(info.step),
                ),
            decreases count - i,
        {
            match self.combined_steps.debug_get(i) {
                Some(info) => {
                    callback.on_tick(&info.step);
                    assert(infos.take(i + 1).map_values(|info: StepInfo<CombinedStepT>| SeerCall::Tick(info.step))
                        =~= infos.take(i as int).map_values(
                        |info: StepInfo<CombinedStepT>| SeerCall::Tick(info.step),
                    ).push(SeerCall::Tick(infos[i as int].step)));
                },
                None => {},
            }
            i = i + 1;
        }
        callback.on_post_ticks();
        assert(infos.take(count as int) =~= infos);
        assert(callback.records_calls() ==> callback.calls() =~= old(callback).calls() + replay_calls(
            old(self).steps().infos(),
        ));
        self.authoritative_has_changed = false;
    }

    /// Drops the predicted steps up to and including `tick`, which now has an
    /// authoritative step (the tick id arithmetic panics past the largest tick id).
    pub fn received_authoritative(&mut self, tick: TickId)
        requires
            tick.0 < u32::MAX,
        ensures
            exists|k: int|
                0 <= k <= old(self).steps().infos().len() && final(self).steps().infos() == old(self).steps().infos().skip(k)
                    && (forall|j: int| 0 <= j < k ==> (#[trigger] old(self).steps().infos()[j]).tick_id.0 <= tick.0)
                    && (k < old(self).steps().infos().len() ==> old(self).steps().infos()[k].tick_id.0 > tick.0),
            final(self).steps().read_id() == old(self).steps().read_id(),
            final(self).steps().write_id() == old(self).steps().write_id(),
            old(self).steps().wf() ==> final(self).steps().wf(),
            final(self).changed() == old(self).changed(),
    {
        let next = tick.plus(1);
        self.combined_steps.pop_up_to(next);
        proof {
            let before = old(self).steps().infos();
            let k = choose|k: int|
                0 <= k <= before.len() && self.combined_steps.infos() == before.skip(k)
                    && (forall|j: int| 0 <= j < k ==> (#[trigger] before[j]).tick_id.0 < next.0)
                    && (k < before.len() ==> before[k].tick_id.0 >= next.0);
            assert(forall|j: int| 0 <= j < k ==> (#[trigger] before[j]).tick_id.0 <= tick.0);
        }
    }

    /// Marks that an authoritative step arrived.
    pub fn authoritative_has_changed(&mut self)
        ensures
            final(self).steps() == old(self).steps(),
            final(self).changed(),
    {
        self.authoritative_has_changed = true;
    }

    /// Adds a predicted step for the next tick.
    pub fn push(&mut self, combined_step: CombinedStepT)
        requires
            old(self).steps().write_id() < u32::MAX,
        ensures
            final(self).steps().infos() == old(self).steps().infos().push(
                StepInfo { step: combined_step, tick_id: TickId(old(self).steps().write_id()) },
            ),
            final(self).steps().write_id() == old(self).steps().write_id() + 1,
            final(self).steps().read_id() == old(self).steps().read_id(),
            old(self).steps().wf() ==> final(self).steps().wf(),
            final(self).changed() == old(self).changed(),
    {
        self.combined_steps.push(combined_step);
    }
}

impl<Callback: SeerCallback<CombinedStepT>, CombinedStepT> Default for Seer<Callback, CombinedStepT> {
    /// No predicted step, starting at tick 0.
    fn default() -> (s: Self)
        ensures
            s.steps().infos() == Seq::<StepInfo<CombinedStepT>>::empty(),
            s.steps().read_id() == 0,
            s.steps().write_id() == 0,
            s.steps().wf(),
            !s.changed(),
    {
        Self::new()
    }
}

} // verus!
