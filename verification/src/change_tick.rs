//! Change-detection ticks of the host store.
//!
//! Each component carries the tick it was added at and the tick it last
//! changed at. The pass compares those against a client's floor tick and
//! the pass's own current tick through a clamped two-tick window, so the
//! comparison stays correct across counter wraparound.

use vstd::prelude::*;

verus! {

/// Ages beyond this clamp compare equal, keeping the window total even
/// when the counter has wrapped many times.
pub const MAX_CHANGE_AGE: u32 = 2147483646;

/// A change-detection tick: a wrapping 32-bit counter of the host store.
#[derive(Clone, Copy, Debug, Default, Hash, PartialEq, Eq, Structural)]
pub struct Tick {
    value: u32,
}

impl Tick {
    pub closed spec fn spec_value(self) -> u32 {
        self.value
    }

    /// The wrapping difference `self - other`.
    pub open spec fn spec_relative_to(self, other: Tick) -> u32 {
        ((self.spec_value() + 0x1_0000_0000 - other.spec_value()) % 0x1_0000_0000) as u32
    }

    /// How old `t` is as seen from `now`, clamped at [`MAX_CHANGE_AGE`].
    pub open spec fn spec_age(now: Tick, t: Tick) -> u32 {
        if now.spec_relative_to(t) > MAX_CHANGE_AGE {
            MAX_CHANGE_AGE
        } else {
            now.spec_relative_to(t)
        }
    }

    /// `self` happened after `last_run`, as seen at `this_run`: its clamped
    /// age is strictly smaller than `last_run`'s.
    pub open spec fn spec_is_newer_than(self, last_run: Tick, this_run: Tick) -> bool {
        Tick::spec_age(this_run, self) < Tick::spec_age(this_run, last_run)
    }

    pub fn new(value: u32) -> (r: Tick)
        ensures
            r.spec_value() == value,
    {
        Tick { value }
    }

    pub fn get(self) -> (r: u32)
        ensures
            r == self.spec_value(),
    {
        self.value
    }

    /// The wrapping difference `self - other`.
    pub fn relative_to(self, other: Tick) -> (r: u32)
        ensures
            r == self.spec_relative_to(other),
    {
        self.value.wrapping_sub(other.value)
    }

    /// Whether `self` happened after `last_run`, as seen at `this_run`.
    pub fn is_newer_than(self, last_run: Tick, this_run: Tick) -> (r: bool)
        ensures
            r == self.spec_is_newer_than(last_run, this_run),
    {
        let ticks_since_insert = {
            let d = this_run.relative_to(self);
            if d > MAX_CHANGE_AGE {
                MAX_CHANGE_AGE
            } else {
                d
            }
        };
        let ticks_since_system = {
            let d = this_run.relative_to(last_run);
            if d > MAX_CHANGE_AGE {
                MAX_CHANGE_AGE
            } else {
                d
            }
        };
        ticks_since_insert < ticks_since_system
    }
}

/// Raising a floor tick under the acknowledgment guard never makes it
/// older: when the old floor is not newer than the acknowledged tick, the
/// acknowledged tick's age as seen from the current tick is no greater
/// than the old floor's, so replacing the floor by it cannot regress it.
pub proof fn lemma_floor_raise_monotonic(floor: Tick, acked: Tick, now: Tick)
    requires
        !floor.spec_is_newer_than(acked, now),
    ensures
        Tick::spec_age(now, acked) <= Tick::spec_age(now, floor),
{
}

} // verus!
