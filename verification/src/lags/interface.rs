//! What the exchange asks of a generator of intervals.

use rand::rngs::StdRng;
use vstd::prelude::*;
use crate::types::{DateTime, NanoSeconds};

verus! {

/// A source of intervals between two deliveries of a subscription.
pub trait NanoSecondGenerator {
    /// The interval from `dt` to the next delivery, in nanoseconds; `None`
    /// where there is no next delivery.
    fn gen_ns(&mut self, rng: &mut StdRng, dt: DateTime) -> Option<NanoSeconds>;
}

} // verus!
