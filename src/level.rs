//! Exact non-negative rational amplitudes.
use vstd::prelude::*;

verus! {

/// A non-negative rational amplitude `num / den`, as given by a caller
/// (an envelope's sustain level, a breakpoint of a ramp).
#[derive(Debug, Clone, Copy, PartialEq, Eq)]
pub struct Level {
    pub num: u32,
    pub den: u32,
}

impl Level {
    /// A level is well formed when its denominator is positive.
    pub open spec fn wf(self) -> bool {
        self.den > 0
    }

    /// The level `num / den`.
    pub fn new(num: u32, den: u32) -> (r: Level)
        requires
            den > 0,
        ensures
            r.num == num,
            r.den == den,
            r.wf(),
    {
        Level { num, den }
    }

    /// Silence.
    pub fn zero() -> (r: Level)
        ensures
            r.num == 0,
            r.den == 1,
    {
        Level { num: 0, den: 1 }
    }

    /// Full scale.
    pub fn one() -> (r: Level)
        ensures
            r.num == 1,
            r.den == 1,
    {
        Level { num: 1, den: 1 }
    }

    /// The same value, as a gain.
    pub fn to_gain(self) -> (r: Gain)
        ensures
            r.num == self.num,
            r.den == self.den,
    {
        Gain { num: self.num as u128, den: self.den as u128 }
    }
}

/// A computed non-negative rational gain `num / den`, wide enough to hold
/// any point of a ramp between two levels.
#[derive(Debug, Clone, Copy, PartialEq, Eq)]
pub struct Gain {
    pub num: u128,
    pub den: u128,
}

impl Gain {
    /// Whether this gain is the rational number `n / d` (with `d > 0`).
    pub open spec fn is(self, n: int, d: int) -> bool {
        self.den > 0 && self.num * d == n * self.den
    }

    /// The gain `0 / 1`.
    pub open spec fn silent() -> Gain {
        Gain { num: 0, den: 1 }
    }

    /// The gain `1 / 1`.
    pub open spec fn unity() -> Gain {
        Gain { num: 1, den: 1 }
    }
}

} // verus!
