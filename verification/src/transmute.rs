//! What a game is told when it runs combined steps: each tick's steps of all
//! participants, between a call before the ticks and one after them.
use vstd::prelude::*;
use crate::participant_steps::ParticipantSteps;
use crate::stream::Deserialize;

verus! {

/// Runs combined steps: `on_tick` with each tick's steps of all participants, between
/// `on_pre_ticks` and `on_post_ticks`.
pub trait TransmuteCallback<StepT: Deserialize> {
    fn on_pre_ticks(&mut self) {
    }

    fn on_tick(&mut self, step: &ParticipantSteps<StepT>);

    fn on_post_ticks(&mut self) {
    }
}

} // verus!
