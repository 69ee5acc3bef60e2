//! Fixed-point quantities of the venue: prices in ticks, sizes in lots, order
//! identifiers, trading directions and the simulated clock.

use rand::rngs::StdRng;
use vstd::prelude::*;

verus! {

/// The generator of pseudo-random numbers that latencies and intervals are
/// drawn from. The library hands it through to those who draw and looks into
/// it nowhere.
#[verifier::external_type_specification]
#[verifier::external_body]
pub struct ExStdRng(rand::rngs::StdRng);

/// The generator that `rand::SeedableRng::seed_from_u64` makes of a seed.
/// It is the same generator for the same seed, wherever and whenever it is made.
pub uninterp spec fn seeded_generator(seed: u64) -> StdRng;

/// Makes a generator with `rand::SeedableRng::seed_from_u64`, which derives
/// its state from the seed and from nothing else. The contract claims only
/// that the outcome is the one that `seeded_generator` names; nothing is
/// claimed of the numbers that the generator yields.
#[verifier::external_body]
pub(crate) fn seeded_rng(seed: u64) -> (r: StdRng)
    ensures
        r == seeded_generator(seed),
{
    rand::SeedableRng::seed_from_u64(seed)
}

/// A price as a whole number of ticks.
#[derive(Debug, PartialEq, Eq, Structural, PartialOrd, Ord, Hash, Clone, Copy)]
pub struct Price(pub i64);

/// The identifier of an order, unique within its origin.
#[derive(Debug, PartialEq, Eq, Structural, PartialOrd, Ord, Hash, Clone, Copy)]
pub struct OrderID(pub u64);

/// A quantity of lots. Zero stands for "removed" or "fully consumed".
#[derive(Debug, Default, PartialEq, Eq, Structural, PartialOrd, Ord, Hash, Clone, Copy)]
pub struct Size(pub u64);

/// The trading direction of an order; also names the side of an aggressor.
#[derive(Debug, PartialEq, Eq, Structural, PartialOrd, Ord, Hash, Clone, Copy)]
pub enum Direction {
    Buy,
    Sell,
}

/// An instant of simulated time, in nanoseconds since the epoch of the replayed data.
#[derive(Debug, PartialEq, Eq, Structural, PartialOrd, Ord, Hash, Clone, Copy)]
pub struct DateTime(pub i64);

/// A strictly positive number of nanoseconds.
#[derive(Debug, Clone, Copy)]
pub struct NanoSeconds {
    ns: u64,
}

impl Direction {
    /// The direction an order must have to trade against this one.
    pub open spec fn spec_opposite(self) -> Direction {
        match self {
            Direction::Buy => Direction::Sell,
            Direction::Sell => Direction::Buy,
        }
    }

    /// The direction an order must have to trade against this one.
    pub fn opposite(self) -> (r: Direction)
        ensures
            r == self.spec_opposite(),
    {
        match self {
            Direction::Buy => Direction::Sell,
            Direction::Sell => Direction::Buy,
        }
    }
}

impl DateTime {
    /// The instant `ns` nanoseconds after this one, where the clock can hold it.
    pub open spec fn spec_after(self, ns: u64) -> Option<DateTime> {
        if self.0 + ns <= i64::MAX {
            Some(DateTime((self.0 + ns) as i64))
        } else {
            None
        }
    }

    /// The instant `ns` nanoseconds after this one; `None` where the clock cannot hold it.
    pub fn checked_add_ns(self, ns: u64) -> (r: Option<DateTime>)
        ensures
            r == self.spec_after(ns),
    {
        let t: i128 = self.0 as i128 + ns as i128;
        if t <= i64::MAX as i128 {
            Some(DateTime(t as i64))
        } else {
            None
        }
    }
}

impl View for NanoSeconds {
    type V = u64;

    closed spec fn view(&self) -> u64 {
        self.ns
    }
}

impl NanoSeconds {
    #[verifier::type_invariant]
    spec fn positive(self) -> bool {
        self.ns > 0
    }

    /// The duration of `ns` nanoseconds; `None` for zero, which is no duration.
    pub fn new(ns: u64) -> (r: Option<NanoSeconds>)
        ensures
            r is Some <==> ns > 0,
            r matches Some(d) ==> d@ == ns,
    {
        if ns > 0 {
            Some(NanoSeconds { ns })
        } else {
            None
        }
    }

    /// The number of nanoseconds, which is never zero.
    pub fn get(&self) -> (r: u64)
        ensures
            r == self@,
            r > 0,
    {
        proof {
            use_type_invariant(self);
        }
        self.ns
    }
}

} // verus!
