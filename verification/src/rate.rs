use vstd::prelude::*;

verus! {

/// Immutable refill configuration: `refill` tokens are added back every
/// `interval_ms` milliseconds, up to a ceiling of `max` tokens.
#[derive(Clone, Copy)]
pub struct Rate {
    pub refill: u64,
    pub interval_ms: u64,
    pub max: u64,
}

impl Rate {
    /// A well-formed rate adds at least one token per interval, over a
    /// positive interval, towards a positive capacity.
    pub open spec fn wf(self) -> bool {
        &&& self.refill >= 1
        &&& self.interval_ms >= 1
        &&& self.max >= 1
    }

    pub fn new(refill: u64, interval_ms: u64, max: u64) -> (r: Rate)
        requires
            refill >= 1,
            interval_ms >= 1,
            max >= 1,
        ensures
            r.refill == refill,
            r.interval_ms == interval_ms,
            r.max == max,
            r.wf(),
    {
        Rate { refill, interval_ms, max }
    }
}

} // verus!
