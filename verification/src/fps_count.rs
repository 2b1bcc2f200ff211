//! A frame counter for the debug overlay: counts frames within a period and
//! hands the count out when the period has elapsed. Reading the clock and
//! printing stay with the caller.

use vstd::prelude::*;

verus! {

#[verifier::external_type_specification]
#[verifier::external_body]
pub struct ExInstant(std::time::Instant);

/// Relies on `std::time::Instant::now`: the result depends on the clock, so
/// nothing is promised of it.
pub assume_specification[ std::time::Instant::now ]() -> std::time::Instant;

/// The per-period frame counter, remembering when the running period began.
pub struct DebugFPSCounter {
    pub enabled: bool,
    pub frames_in_period: usize,
    pub period_start: std::time::Instant,
}

impl DebugFPSCounter {
    /// A counter with no frames seen, its period starting now.
    pub fn new(enabled: bool) -> (r: Self)
        ensures
            r.enabled == enabled,
            r.frames_in_period == 0,
    {
        Self { enabled, frames_in_period: 0, period_start: std::time::Instant::now() }
    }

    /// Count one frame. When the caller reports the period elapsed, the
    /// count restarts and the finished period's total is handed back to be
    /// shown; a disabled counter does nothing.
    pub fn update(&mut self, period_elapsed: bool) -> (shown: Option<usize>)
        requires
            old(self).frames_in_period < usize::MAX,
        ensures
            !old(self).enabled ==> *final(self) == *old(self) && shown is None,
            old(self).enabled && !period_elapsed ==> final(self).frames_in_period == old(
                self,
            ).frames_in_period + 1 && shown is None,
            old(self).enabled && period_elapsed ==> final(self).frames_in_period == 0 && shown
                == Some((old(self).frames_in_period + 1) as usize),
            final(self).enabled == old(self).enabled,
    {
        if !self.enabled {
            return None;
        }
        self.frames_in_period = self.frames_in_period + 1;
        if period_elapsed {
            let total = self.frames_in_period;
            self.frames_in_period = 0;
            self.period_start = std::time::Instant::now();
            Some(total)
        } else {
            None
        }
    }
}

} // verus!
