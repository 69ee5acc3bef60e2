//! Intervals of a fixed length.

use rand::rngs::StdRng;
use vstd::prelude::*;
use crate::lags::interface::NanoSecondGenerator;
use crate::types::{DateTime, NanoSeconds};

verus! {

pub const ONE_MICROSECOND: u64 = 1_000;

pub const ONE_MILLISECOND: u64 = 1_000_000;

pub const ONE_SECOND: u64 = 1_000_000_000;

pub const ONE_MINUTE: u64 = 60_000_000_000;

pub const ONE_HOUR: u64 = 3_600_000_000_000;

pub const ONE_DAY: u64 = 86_400_000_000_000;

/// A generator that yields the same interval every time.
pub struct ConstNanoSecondGenerator(pub NanoSeconds);

impl ConstNanoSecondGenerator {
    /// The generator of the interval of `ns` nanoseconds; `None` for zero.
    pub fn new(ns: u64) -> (r: Option<ConstNanoSecondGenerator>)
        ensures
            r is Some <==> ns > 0,
            r matches Some(generator) ==> generator.0@ == ns,
    {
        match NanoSeconds::new(ns) {
            Some(interval) => Some(ConstNanoSecondGenerator(interval)),
            None => None,
        }
    }
}

impl NanoSecondGenerator for ConstNanoSecondGenerator {
    fn gen_ns(&mut self, rng: &mut StdRng, dt: DateTime) -> (r: Option<NanoSeconds>)
        ensures
            r matches Some(interval) && interval@ == old(self).0@,
            final(self).0@ == old(self).0@,
    {
        Some(self.0)
    }
}

} // verus!
