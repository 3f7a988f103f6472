//! Server-side configuration.

use vstd::prelude::*;

verus! {

/// Marks an entity for replication: only marked entities ever reach a
/// client.
#[derive(Clone, Copy, Debug, Default, PartialEq, Eq, Structural)]
pub struct Replicated;

/// How often the server runs its replication pass.
#[derive(Clone, Copy, Debug, PartialEq, Eq, Structural)]
pub enum TickPolicy {
    /// At most this many passes per second.
    MaxTickRate(u16),
    /// One pass per host frame.
    EveryFrame,
    /// The host triggers passes itself.
    Manual,
}

/// The milliseconds to wait between passes under `policy`: the rate's
/// period for a capped rate, none where every frame or the host decides.
pub fn tick_interval_ms(policy: TickPolicy) -> (r: Option<u64>)
    ensures
        match policy {
            TickPolicy::MaxTickRate(rate) => {
                &&& rate > 0 ==> r == Some((1000 as u64 / rate as u64) as u64)
                &&& rate == 0 ==> r is None
            },
            TickPolicy::EveryFrame => r is None,
            TickPolicy::Manual => r is None,
        },
{
    match policy {
        TickPolicy::MaxTickRate(rate) => {
            if rate > 0 {
                Some(1000 / (rate as u64))
            } else {
                None
            }
        },
        TickPolicy::EveryFrame => None,
        TickPolicy::Manual => None,
    }
}

} // verus!
