//! Sampling repositories created at random times: when to try again, and which time to try.
use vstd::prelude::*;

use rand::Rng;

verus! {

/// `Rng::gen_range` over the inclusive range `0..=max`, with the thread's random generator: a
/// number that chance picks from that range.
#[verifier::external_body]
fn random_up_to(max: i64) -> (r: i64)
    requires
        0 <= max,
    ensures
        0 <= r <= max,
{
    rand::thread_rng().gen_range(0..=max)
}

/// The attempts to find a repository created in a random hour of the sample range.
#[derive(Debug, Clone, Copy, PartialEq, Eq)]
pub struct SampleAttempts {
    pub made: usize,
}

impl SampleAttempts {
    pub fn new() -> (a: Self)
        ensures
            a.made == 0,
    {
        SampleAttempts { made: 0 }
    }

    /// The start of the hour for the next attempt, in seconds after the start of the range,
    /// picked at random from the whole range; `None` once more than a hundred attempts found
    /// nothing.
    pub fn next_offset(&mut self, seconds_in_range: i64) -> (r: Option<i64>)
        requires
            0 <= seconds_in_range,
        ensures
            old(self).made > 100 ==> r is None && final(self).made == old(self).made,
            old(self).made <= 100 ==> (r matches Some(o) && 0 <= o <= seconds_in_range)
                && final(self).made == old(self).made + 1,
    {
        if self.made > 100 {
            None
        } else {
            self.made = self.made + 1;
            Some(random_up_to(seconds_in_range))
        }
    }
}

} // verus!
