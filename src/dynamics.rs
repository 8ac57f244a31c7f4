//! Control of the sampling of a second order dynamics simulation into an
//! easing curve.
use vstd::prelude::*;

verus! {

/// Samples taken per second of simulated time.
pub const ITERATION_RATE: u64 = 15;

/// Most samples a curve holds: a simulation not settled by then is given up.
pub const MAX_SAMPLES: usize = 1000;

/// What to do after taking a sample.
#[derive(Clone, Copy, Debug, PartialEq, Eq, Structural)]
pub enum Sampling {
    /// Take another sample.
    Continue,
    /// The velocity has settled: the curve is complete.
    Settled,
    /// The curve grew past its cap without settling: stop and use it as is.
    TooLong,
}

/// The decision after `samples` samples have been taken, the last of them with
/// a settled velocity or not: a settled curve is complete, and an unsettled
/// one is given up once it holds `MAX_SAMPLES` samples.
pub fn sampling(samples: usize, settled: bool) -> (r: Sampling)
    ensures
        settled ==> r == Sampling::Settled,
        !settled && samples >= MAX_SAMPLES ==> r == Sampling::TooLong,
        !settled && samples < MAX_SAMPLES ==> r == Sampling::Continue,
{
    if settled {
        Sampling::Settled
    } else if samples >= MAX_SAMPLES {
        Sampling::TooLong
    } else {
        Sampling::Continue
    }
}

} // verus!
