use vstd::prelude::*;

verus! {

/// `|a - b|`.
pub open spec fn abs_diff(a: int, b: int) -> int {
    if a >= b {
        a - b
    } else {
        b - a
    }
}

/// A spectral peak: when it occurs (microseconds from the start of the
/// signal), at which frequency (millihertz), and its power, held as an
/// order key (the IEEE-754 bit pattern of the non-negative power, which
/// orders as the power does).
#[derive(Debug, Clone, Copy, PartialEq, Eq, Structural, PartialOrd, Ord)]
pub struct Peak {
    time: u64,
    frequency: u32,
    amplitude: u64,
}

/// The squared distance between two peaks, time in seconds and frequency in
/// hertz, scaled by 10^12 so that it is an integer: `dt_us^2 + (1000 * df_mhz)^2`,
/// saturated at `u128::MAX`.  It orders peak pairs as their Euclidean
/// distance does.
pub open spec fn spec_distance(a: Peak, b: Peak) -> u128 {
    let dt = abs_diff(a.spec_time() as int, b.spec_time() as int);
    let df = abs_diff(a.spec_frequency() as int, b.spec_frequency() as int) * 1000;
    let s = dt * dt + df * df;
    if s > u128::MAX {
        u128::MAX
    } else {
        s as u128
    }
}

/// Distance is symmetric: a peak is as far from another as the other is
/// from it.
pub proof fn lemma_distance_symmetric(a: Peak, b: Peak)
    ensures
        spec_distance(a, b) == spec_distance(b, a),
{
}

/// A peak is at distance zero from itself.
pub proof fn lemma_distance_self(a: Peak)
    ensures
        spec_distance(a, a) == 0,
{
}

impl Peak {
    pub closed spec fn spec_time(&self) -> u64 {
        self.time
    }

    pub closed spec fn spec_frequency(&self) -> u32 {
        self.frequency
    }

    pub closed spec fn spec_amplitude(&self) -> u64 {
        self.amplitude
    }

    pub fn new(x: u64, y: u32, val: u64) -> (p: Peak)
        ensures
            p.spec_time() == x,
            p.spec_frequency() == y,
            p.spec_amplitude() == val,
    {
        Peak { time: x, frequency: y, amplitude: val }
    }

    pub fn amplitude(&self) -> (a: u64)
        ensures
            a == self.spec_amplitude(),
    {
        self.amplitude
    }

    pub fn time(&self) -> (t: u64)
        ensures
            t == self.spec_time(),
    {
        self.time
    }

    pub fn frequency(&self) -> (f: u32)
        ensures
            f == self.spec_frequency(),
    {
        self.frequency
    }

    /// The squared, scaled distance to `other` (see `spec_distance`).
    pub fn distance(&self, other: Peak) -> (d: u128)
        ensures
            d == spec_distance(*self, other),
    {
        let dt: u64 = if self.time >= other.time {
            self.time - other.time
        } else {
            other.time - self.time
        };
        let df: u32 = if self.frequency >= other.frequency {
            self.frequency - other.frequency
        } else {
            other.frequency - self.frequency
        };
        let dt128: u128 = dt as u128;
        let df128: u128 = (df as u128) * 1000;
        assert(dt128 * dt128 <= 0xffff_ffff_ffff_ffffu128 * 0xffff_ffff_ffff_ffffu128) by (nonlinear_arith)
            requires
                dt128 <= 0xffff_ffff_ffff_ffffu128,
        ;
        assert(df128 * df128 <= 4294967295000u128 * 4294967295000u128) by (nonlinear_arith)
            requires
                df128 <= 4294967295000u128,
        ;
        let sq_t: u128 = dt128 * dt128;
        let sq_f: u128 = df128 * df128;
        sq_t.saturating_add(sq_f)
    }
}

} // verus!
