//! What a game learns when its authoritative state has caught up with every
//! authoritative step known.
use vstd::prelude::*;

verus! {

/// Told when the authoritative state has taken in every authoritative step known, so
/// that the game can copy it into its predicted state before predicting again.
pub trait RectifyCallback {
    fn on_copy_from_authoritative(&mut self);
}

/// Whether an authoritative step for `tick` may be taken in after the last
/// authoritative tick `end`: with none yet, any tick; otherwise only the tick right
/// after it.
pub fn follows_authoritative(end: Option<u32>, tick: u32) -> (b: bool)
    ensures
        b == match end {
            None => true,
            Some(e) => e + 1 == tick,
        },
{
    match end {
        None => true,
        Some(e) => e < u32::MAX && e + 1 == tick,
    }
}

} // verus!
