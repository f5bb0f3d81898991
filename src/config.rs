//! Configuration of a socket or session.
use vstd::prelude::*;
use crate::rtt::Alpha;

verus! {

/// Recognised options. Durations are in microseconds.
#[derive(Clone, Copy, Debug)]
pub struct Config {
    /// Capacity of the inbound event channel.
    pub event_capacity: usize,
    /// Smoothing factor of the RTT estimate.
    pub rtt_alpha: Alpha,
    /// Most in-flight RTT timers kept per connection.
    pub rtt_queue_capacity: usize,
    /// Silence after which a connection is evicted.
    pub timeout: u64,
    /// Largest reliable message accepted.
    pub max_reliable_size: usize,
}

impl Config {
    pub open spec fn valid(self) -> bool {
        self.rtt_alpha.valid()
    }
}

impl Default for Config {
    fn default() -> (r: Self)
        ensures
            r.valid(),
            r.event_capacity == 1024,
            r.rtt_alpha == (Alpha { num: 1, den: 8 }),
            r.rtt_queue_capacity == 128,
            r.timeout == 2_000_000,
            r.max_reliable_size == 65535,
    {
        Config {
            event_capacity: 1024,
            rtt_alpha: Alpha { num: 1, den: 8 },
            rtt_queue_capacity: 128,
            timeout: 2_000_000,
            max_reliable_size: 65535,
        }
    }
}

} // verus!
