//! Who the node is, its timings and its limits.
use vstd::prelude::*;
use std::time::Duration;

verus! {

pub struct Config<Id> {
    /// The node's identity.
    pub me: Id,
    /// How many peers a message is forwarded to; the active view holds `fanout + 1`.
    pub fanout: usize,
    /// How long a node waits between gossip rounds.
    pub round_interval: Duration,
    /// How many hops a payload keeps being forwarded before it stops spreading.
    pub max_rounds: u32,
    /// Size of the passive (backup) view.
    pub passive_capacity: usize,
    /// Active random walk length: the most hops a `ForwardJoin` travels.
    pub active_walk_length: u32,
    /// Passive random walk length: the hop at which a joining node enters the passive view.
    pub passive_walk_length: u32,
    /// How long (in host time units) to wait for an eager payload before grafting.
    pub graft_timeout: u64,
    /// Shorter wait before grafting the next announcer if the first graft stays silent.
    pub graft_retry_timeout: u64,
}

/// The duration that `Duration::from_secs` builds from a number of seconds.
pub uninterp spec fn duration_of_secs(secs: u64) -> Duration;

/// Calls `std::time::Duration::from_secs`; its result is named `duration_of_secs(secs)`
/// (a pure function of the seconds, which cannot overflow).
#[verifier::external_body]
fn seconds(secs: u64) -> (d: Duration)
    ensures
        d == duration_of_secs(secs),
{
    Duration::from_secs(secs)
}

impl<Id> Config<Id> {
    /// The defaults from the HyParView paper's experiments.
    pub fn new(me: Id) -> (c: Self)
        ensures
            c.me == me,
            c.fanout == 3,
            c.round_interval == duration_of_secs(1),
            c.max_rounds == 5,
            c.passive_capacity == 30,
            c.active_walk_length == 6,
            c.passive_walk_length == 3,
            c.graft_timeout == 100,
            c.graft_retry_timeout == 50,
    {
        Config {
            me,
            fanout: 3,
            round_interval: seconds(1),
            max_rounds: 5,
            passive_capacity: 30,
            active_walk_length: 6,
            passive_walk_length: 3,
            graft_timeout: 100,
            graft_retry_timeout: 50,
        }
    }
}

} // verus!
