use vstd::prelude::*;

use crate::granular::granular_tick;
use crate::grid::PixelWorld;

verus! {

/// Runs an expensive phase at most once per `interval` units of simulated
/// time, however the time arrives: elapsed time accumulates and each firing
/// consumes one interval.
pub struct RateLimiter {
    pub interval: u64,
    pub elapsed: u64,
}

impl RateLimiter {
    pub open spec fn wf(&self) -> bool {
        self.interval > 0 && self.elapsed < self.interval
    }

    pub fn new(interval: u64) -> (r: RateLimiter)
        requires
            interval > 0,
        ensures
            r.wf(),
            r.interval == interval,
            r.elapsed == 0,
    {
        RateLimiter { interval, elapsed: 0 }
    }

    /// Adds `dt` to the accumulated time and says whether the phase runs
    /// now; a run consumes one interval, and time beyond one more interval
    /// is dropped rather than queued.
    pub fn advance(&mut self, dt: u64) -> (fire: bool)
        requires
            old(self).wf(),
        ensures
            final(self).wf(),
            final(self).interval == old(self).interval,
            fire == (old(self).elapsed + dt >= old(self).interval),
            !fire ==> final(self).elapsed == old(self).elapsed + dt,
            fire ==> final(self).elapsed == if old(self).elapsed + dt - old(self).interval
                < old(self).interval {
                old(self).elapsed + dt - old(self).interval
            } else {
                0
            },
    {
        let room = self.interval - self.elapsed;
        if dt < room {
            self.elapsed = self.elapsed + dt;
            false
        } else {
            let rest = dt - room;
            self.elapsed = if rest < self.interval {
                rest
            } else {
                0
            };
            true
        }
    }
}

/// One frame of the granular phase: the sand moves when `pace`, advanced by
/// one frame, says so, and the grid is left as it is otherwise.
pub fn update_pixels(world: &mut PixelWorld, pace: &mut RateLimiter) -> (moved: bool)
    requires
        old(world).wf(),
        old(pace).wf(),
    ensures
        final(world).wf(),
        final(pace).wf(),
        final(pace).interval == old(pace).interval,
        moved == (old(pace).elapsed + 1 >= old(pace).interval),
        !moved ==> final(pace).elapsed == old(pace).elapsed + 1 && *final(world) == *old(world),
        moved ==> final(pace).elapsed == if old(pace).elapsed + 1 - old(pace).interval
            < old(pace).interval {
            old(pace).elapsed + 1 - old(pace).interval
        } else {
            0
        },
        moved ==> old(world).dirty_follows(&*final(world)),
        moved ==> final(world).cells().to_multiset() == old(world).cells().to_multiset(),
        moved ==> exists|coins: Seq<bool>|
            coins.len() == old(world).w() * old(world).h() && final(world).w() == old(world).w()
                && final(world).h() == old(world).h() && final(world).cells() == granular_tick(
                old(world).cells(),
                old(world).w(),
                old(world).h(),
                coins,
            ),
{
    if pace.advance(1) {
        world.update_sand();
        true
    } else {
        false
    }
}

} // verus!
