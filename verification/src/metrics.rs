use vstd::prelude::*;

verus! {

/// What one protocol run cost: messages sent, rounds used and wall-clock time.
#[derive(Debug, Clone)]
pub struct Metrics {
    pub message_count: u64,
    pub rounds: u64,
    pub duration_us: u64,
}

impl Metrics {
    pub fn new(message_count: u64, rounds: u64, duration_us: u64) -> (m: Self)
        ensures
            m.message_count == message_count,
            m.rounds == rounds,
            m.duration_us == duration_us,
    {
        Metrics { message_count, rounds, duration_us }
    }
}

impl Default for Metrics {
    fn default() -> (m: Self)
        ensures
            m.message_count == 0,
            m.rounds == 0,
            m.duration_us == 0,
    {
        Metrics { message_count: 0, rounds: 0, duration_us: 0 }
    }
}

} // verus!
