//! Wrapping logical clock used to order replication messages.

use vstd::prelude::*;

verus! {

/// Logical tick of the replication protocol.
///
/// A wrapping 32-bit counter, incremented once per server replication pass.
/// Ordering is defined through wrapping subtraction so that it stays correct
/// across counter wraparound: `a` is newer than `b` exactly when the wrapping
/// difference `a - b` is nonzero and at most `u32::MAX / 2`.
#[derive(Clone, Copy, Debug, Default, Hash, PartialEq, Eq, Structural)]
pub struct RepliconTick {
    value: u32,
}

impl RepliconTick {
    /// Greatest number of bytes one tick takes on the wire.
    pub const MAX_SERIALIZED_SIZE: usize = 5;

    pub closed spec fn spec_value(self) -> u32 {
        self.value
    }

    /// The wrapping difference `a - b`.
    pub open spec fn spec_diff(a: RepliconTick, b: RepliconTick) -> u32 {
        ((a.spec_value() + 0x1_0000_0000 - b.spec_value()) % 0x1_0000_0000) as u32
    }

    /// `a` is strictly newer than `b` in the wrapping order.
    pub open spec fn spec_gt(a: RepliconTick, b: RepliconTick) -> bool {
        0 < Self::spec_diff(a, b) <= u32::MAX / 2
    }

    /// The tick reached from `self` after `k` increments, wrapping around.
    pub closed spec fn spec_add(self, k: u32) -> RepliconTick {
        RepliconTick { value: ((self.value + k) % 0x1_0000_0000) as u32 }
    }

    /// The tick holding the given counter value.
    pub closed spec fn new_spec(value: u32) -> RepliconTick {
        RepliconTick { value }
    }

    /// Creates a tick holding the given counter value.
    pub fn new(value: u32) -> (r: Self)
        ensures
            r.spec_value() == value,
            r == RepliconTick::new_spec(value),
    {
        Self { value }
    }

    /// Returns the raw counter value.
    pub fn get(self) -> (r: u32)
        ensures
            r == self.spec_value(),
    {
        self.value
    }

    /// Advances the tick by `rhs`, wrapping on overflow.
    pub fn wrapping_add(self, rhs: u32) -> (r: Self)
        ensures
            r.spec_value() == (self.spec_value() + rhs) % 0x1_0000_0000,
            r == self.spec_add(rhs),
    {
        Self { value: self.value.wrapping_add(rhs) }
    }

    /// Moves the tick back by `rhs`, wrapping on underflow.
    pub fn wrapping_sub(self, rhs: u32) -> (r: Self)
        ensures
            r.spec_value() == (self.spec_value() + 0x1_0000_0000 - rhs) % 0x1_0000_0000,
    {
        Self { value: self.value.wrapping_sub(rhs) }
    }

    /// The wrapping difference between two ticks.
    pub fn diff(self, rhs: Self) -> (r: u32)
        ensures
            r == Self::spec_diff(self, rhs),
    {
        self.value.wrapping_sub(rhs.value)
    }
}

impl PartialOrd for RepliconTick {
    /// Wrapping comparison: the wrapping difference decides the order, with
    /// a difference of exactly `2^31` counting as "older", as the protocol
    /// has always resolved that boundary.
    fn partial_cmp(&self, other: &Self) -> (r: Option<core::cmp::Ordering>)
    {
        let difference = self.value.wrapping_sub(other.value);
        if difference == 0 {
            Some(core::cmp::Ordering::Equal)
        } else if difference > u32::MAX / 2 {
            Some(core::cmp::Ordering::Less)
        } else {
            Some(core::cmp::Ordering::Greater)
        }
    }
}

impl vstd::std_specs::cmp::PartialOrdSpecImpl for RepliconTick {
    open spec fn obeys_partial_cmp_spec() -> bool {
        true
    }

    open spec fn partial_cmp_spec(&self, other: &Self) -> Option<core::cmp::Ordering> {
        if RepliconTick::spec_diff(*self, *other) == 0 {
            Some(core::cmp::Ordering::Equal)
        } else if RepliconTick::spec_gt(*self, *other) {
            Some(core::cmp::Ordering::Greater)
        } else {
            Some(core::cmp::Ordering::Less)
        }
    }
}

/// Tick ordering survives wraparound: advancing a tick by any step below
/// `2^31` yields a tick that compares strictly newer, even when the 32-bit
/// counter itself wraps.
pub proof fn lemma_tick_ordering_wraparound(t: RepliconTick, k: u32)
    requires
        0 < k < 0x8000_0000,
    ensures
        RepliconTick::spec_gt(t.spec_add(k), t),
{
    let s = t.spec_add(k);
    assert(s.spec_value() == (t.spec_value() + k) % 0x1_0000_0000);
    assert(RepliconTick::spec_diff(s, t) == k) by {
        assert(((t.spec_value() + k) % 0x1_0000_0000 + 0x1_0000_0000 - t.spec_value())
            % 0x1_0000_0000 == k) by (nonlinear_arith)
            requires
                t.spec_value() < 0x1_0000_0000,
                0 < k < 0x8000_0000,
        ;
    }
}

} // verus!
