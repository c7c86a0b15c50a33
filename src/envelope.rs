//! Attack / decay / sustain / release amplitude envelopes over sample ticks.
use vstd::prelude::*;
use crate::level::{Gain, Level};

verus! {

/// The point of the straight line through `(x1, y1)` and `(x2, y2)` at `x`,
/// as an exact fraction: `(y1 * (x2 - x) + y2 * (x - x1)) / (x2 - x1)`,
/// with the levels' denominators multiplied out.
pub open spec fn ramp_point(x1: int, y1: Level, x2: int, y2: Level, x: int) -> Gain {
    Gain {
        num: (y1.num * y2.den * (x2 - x) + y2.num * y1.den * (x - x1)) as u128,
        den: (y1.den * y2.den * (x2 - x1)) as u128,
    }
}

proof fn lemma_ramp_bounds(n1: int, d1: int, n2: int, d2: int, p: int, q: int)
    requires
        0 <= n1 < 0x1_0000_0000,
        0 <= d1 < 0x1_0000_0000,
        0 <= n2 < 0x1_0000_0000,
        0 <= d2 < 0x1_0000_0000,
        0 <= p,
        0 <= q,
        p + q < 0x1_0000_0000_0000_0000,
    ensures
        0 <= n1 * d2 < 0x1_0000_0000_0000_0000,
        0 <= n2 * d1 < 0x1_0000_0000_0000_0000,
        0 <= d1 * d2 < 0x1_0000_0000_0000_0000,
        0 <= n1 * d2 * p,
        0 <= n2 * d1 * q,
        0 <= n1 * d2 * p + n2 * d1 * q < 0x1_0000_0000_0000_0000_0000_0000_0000_0000,
        0 <= d1 * d2 * (p + q) < 0x1_0000_0000_0000_0000_0000_0000_0000_0000,
{
    let m: int = 0xffff_ffff_ffff_ffff;
    assert(0 <= n1 * d2 <= m) by (nonlinear_arith)
        requires
            0 <= n1 < 0x1_0000_0000,
            0 <= d2 < 0x1_0000_0000,
            m == 0xffff_ffff_ffff_ffff,
    ;
    assert(0 <= n2 * d1 <= m) by (nonlinear_arith)
        requires
            0 <= n2 < 0x1_0000_0000,
            0 <= d1 < 0x1_0000_0000,
            m == 0xffff_ffff_ffff_ffff,
    ;
    assert(0 <= d1 * d2 <= m) by (nonlinear_arith)
        requires
            0 <= d1 < 0x1_0000_0000,
            0 <= d2 < 0x1_0000_0000,
            m == 0xffff_ffff_ffff_ffff,
    ;
    let a = n1 * d2;
    let b = n2 * d1;
    let c = d1 * d2;
    assert(0 <= a * p && 0 <= b * q && a * p + b * q <= m * (p + q)) by (nonlinear_arith)
        requires
            0 <= a <= m,
            0 <= b <= m,
            0 <= p,
            0 <= q,
    ;
    assert(0 <= c * (p + q) <= m * (p + q)) by (nonlinear_arith)
        requires
            0 <= c <= m,
            0 <= p,
            0 <= q,
    ;
    assert(m * (p + q) < 0x1_0000_0000_0000_0000_0000_0000_0000_0000) by (nonlinear_arith)
        requires
            m == 0xffff_ffff_ffff_ffff,
            0 <= p + q < 0x1_0000_0000_0000_0000,
    ;
}

/// Linear interpolation between `(x1, y1)` and `(x2, y2)`, defined on the
/// half-open range `x1 <= x < x2` only. A segment of width zero is therefore
/// never matched, which lets an envelope skip a zero-length stage.
pub fn linear_interpolation(p1: (u64, Level), p2: (u64, Level), x: u64) -> (r: Option<Gain>)
    requires
        p1.1.wf(),
        p2.1.wf(),
    ensures
        r is Some <==> p1.0 <= x < p2.0,
        r is Some ==> r->0 == ramp_point(p1.0 as int, p1.1, p2.0 as int, p2.1, x as int),
        r is Some ==> r->0.den > 0,
{
    let (x1, y1) = p1;
    let (x2, y2) = p2;
    if x1 <= x && x < x2 {
        proof {
            lemma_ramp_bounds(
                y1.num as int,
                y1.den as int,
                y2.num as int,
                y2.den as int,
                (x2 - x) as int,
                (x - x1) as int,
            );
            assert(y1.den * y2.den * (x2 - x1) > 0) by (nonlinear_arith)
                requires
                    y1.den > 0,
                    y2.den > 0,
                    x2 > x1,
            ;
        }
        let num = (y1.num as u128) * (y2.den as u128) * ((x2 - x) as u128) + (y2.num as u128)
            * (y1.den as u128) * ((x - x1) as u128);
        let den = (y1.den as u128) * (y2.den as u128) * ((x2 - x1) as u128);
        Some(Gain { num, den })
    } else {
        None
    }
}

/// An attack / decay / sustain / release envelope. Durations are counted in
/// sample ticks; the sustain level is an exact fraction.
#[derive(Debug, Clone, Copy, PartialEq, Eq)]
pub struct Envelope {
    pub attack: u64,
    pub decay: u64,
    pub sustain: Level,
    pub release: u64,
}

impl Envelope {
    /// The sustain level has a positive denominator and the end of the decay
    /// stage is a representable tick.
    pub open spec fn wf(self) -> bool {
        &&& self.sustain.wf()
        &&& self.attack + self.decay <= u64::MAX
    }

    /// The gain of a held note `e` ticks after it was struck: a ramp from 0 to
    /// 1 over `[0, attack)`, then from 1 to the sustain level over
    /// `[attack, attack + decay)`, then the sustain level.
    pub open spec fn multiplier_spec(self, e: int) -> Gain {
        let a = self.attack as int;
        let d = self.decay as int;
        let sn = self.sustain.num as int;
        let sd = self.sustain.den as int;
        if e < a {
            Gain { num: e as u128, den: a as u128 }
        } else if e < a + d {
            Gain { num: (sd * (a + d - e) + sn * (e - a)) as u128, den: (sd * d) as u128 }
        } else {
            Gain { num: sn as u128, den: sd as u128 }
        }
    }

    /// The gain of a released note `e` ticks after it was let go: a ramp from
    /// the sustain level down to 0 over `[0, release)`, undefined afterwards.
    pub open spec fn release_multiplier_spec(self, e: int) -> Option<Gain> {
        let r = self.release as int;
        let sn = self.sustain.num as int;
        let sd = self.sustain.den as int;
        if 0 <= e < r {
            Some(Gain { num: (sn * (r - e)) as u128, den: (sd * r) as u128 })
        } else {
            None
        }
    }

    pub fn new(attack: u64, decay: u64, sustain: Level, release: u64) -> (r: Envelope)
        requires
            sustain.wf(),
            attack + decay <= u64::MAX,
        ensures
            r.attack == attack,
            r.decay == decay,
            r.sustain == sustain,
            r.release == release,
            r.wf(),
    {
        Envelope { attack, decay, sustain, release }
    }

    /// The gain of a held note `elapsed` ticks after it was struck.
    pub fn multiplier(&self, elapsed: u64) -> (r: Gain)
        requires
            self.wf(),
        ensures
            r == self.multiplier_spec(elapsed as int),
            r.den > 0,
    {
        let start = (0u64, Level::zero());
        let summit = (self.attack, Level::one());
        let bottom = (self.attack + self.decay, self.sustain);
        match linear_interpolation(start, summit, elapsed) {
            Some(g) => {
                proof {
                    let (e, a) = (elapsed as int, self.attack as int);
                    assert(0 * 1 * (a - e) + 1 * 1 * (e - 0) == e && 1 * 1 * (a - 0) == a)
                        by (nonlinear_arith);
                }
                g
            },
            None => match linear_interpolation(summit, bottom, elapsed) {
                Some(g) => {
                    proof {
                        let (e, a, d) = (elapsed as int, self.attack as int, self.decay as int);
                        let (sn, sd) = (self.sustain.num as int, self.sustain.den as int);
                        assert(1 * sd * (a + d - e) + sn * 1 * (e - a) == sd * (a + d - e) + sn * (
                        e - a) && 1 * sd * (a + d - a) == sd * d) by (nonlinear_arith);
                    }
                    g
                },
                None => self.sustain.to_gain(),
            },
        }
    }

    /// The gain of a released note `elapsed` ticks after it was let go, or
    /// `None` once the release stage is over.
    pub fn release_multiplier(&self, elapsed: u64) -> (r: Option<Gain>)
        requires
            self.wf(),
        ensures
            r == self.release_multiplier_spec(elapsed as int),
            r is Some ==> r->0.den > 0,
    {
        let r = linear_interpolation((0, self.sustain), (self.release, Level::zero()), elapsed);
        proof {
            let (e, rl) = (elapsed as int, self.release as int);
            let (sn, sd) = (self.sustain.num as int, self.sustain.den as int);
            assert(sn * 1 * (rl - e) + 0 * sd * (e - 0) == sn * (rl - e) && sd * 1 * (rl - 0) == sd
                * rl) by (nonlinear_arith);
        }
        r
    }

    /// Whether a note released `elapsed` ticks ago is still sounding.
    pub fn is_releasing(&self, elapsed: u64) -> (r: bool)
        ensures
            r == (elapsed < self.release),
    {
        elapsed < self.release
    }
}

/// During the attack stage the gain is the elapsed fraction of the attack:
/// `multiplier(e) == e / attack`.
pub proof fn lemma_attack_ramp(env: Envelope, e: int)
    requires
        env.wf(),
        0 <= e < env.attack,
    ensures
        env.multiplier_spec(e).is(e, env.attack as int),
{
}

/// The decay stage ends on the sustain level, and from then on the gain
/// stays there.
pub proof fn lemma_sustain_after_decay(env: Envelope, x: int)
    requires
        env.wf(),
        x >= env.attack + env.decay,
    ensures
        env.multiplier_spec(env.attack + env.decay).is(
            env.sustain.num as int,
            env.sustain.den as int,
        ),
        env.multiplier_spec(x).is(env.sustain.num as int, env.sustain.den as int),
{
}

/// The release multiplier is defined exactly before the release is over; it
/// starts on the sustain level and falls linearly, reaching zero where the
/// release ends: `release_multiplier(e) * release == sustain * (release - e)`.
pub proof fn lemma_release_ramp(env: Envelope, e: int)
    requires
        env.wf(),
        0 <= e,
    ensures
        env.release_multiplier_spec(e) is Some <==> e < env.release,
        env.release > 0 ==> env.release_multiplier_spec(0)->0.is(
            env.sustain.num as int,
            env.sustain.den as int,
        ),
        e < env.release ==> env.release_multiplier_spec(e)->0.is(
            env.sustain.num * (env.release - e),
            env.sustain.den * env.release,
        ),
{
    let (sn, sd, r) = (env.sustain.num as int, env.sustain.den as int, env.release as int);
    if r > 0 {
        assert((sn * (r - 0)) * sd == sn * (sd * r)) by (nonlinear_arith);
        assert(sd * r > 0) by (nonlinear_arith)
            requires
                sd > 0,
                r > 0,
        ;
        assert(0 <= sn * r <= u128::MAX && 0 <= sd * r <= u128::MAX) by (nonlinear_arith)
            requires
                0 <= sn < 0x1_0000_0000,
                0 < sd < 0x1_0000_0000,
                0 < r < 0x1_0000_0000_0000_0000,
        ;
    }
    if 0 <= e < r {
        assert(0 <= sn * (r - e) <= u128::MAX && 0 < sd * r <= u128::MAX) by (nonlinear_arith)
            requires
                0 <= sn < 0x1_0000_0000,
                0 < sd < 0x1_0000_0000,
                0 < r < 0x1_0000_0000_0000_0000,
                0 <= e < r,
        ;
    }
}

} // verus!
