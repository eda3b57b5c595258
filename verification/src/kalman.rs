//! Scalar smoothing filter: a one-variable recursive estimator with state
//! `x` (estimate) and `p` (error covariance), configured by process noise
//! `q`, measurement noise `r` and an initial covariance.
//!
//! Every quantity is in milli-units (fixed point, denominator 1000); each
//! division below is the integer (floor) division of those milli values.
use vstd::prelude::*;

verus! {

use crate::SCALE;

/// The filter gain for a predicted covariance `p_pred` and measurement
/// noise `r`, in milli-units: `1000 * p_pred / (p_pred + r)`.
pub open spec fn spec_gain(p_pred: int, r: int) -> int {
    (p_pred * SCALE) / (p_pred + r)
}

/// The corrected estimate: `x` moved toward `z` by the fraction `k / 1000`,
/// the movement rounded toward zero.
pub open spec fn spec_next_x(x: int, k: int, z: int) -> int {
    if z >= x {
        x + (k * (z - x)) / (SCALE as int)
    } else {
        x - (k * (x - z)) / (SCALE as int)
    }
}

/// The corrected covariance: `(1 - k/1000) * p_pred`, rounded down.
pub open spec fn spec_next_p(p_pred: int, k: int) -> int {
    ((SCALE - k) * p_pred) / (SCALE as int)
}

pub struct Kalman {
    /// Process noise, milli-units.
    pub q: u32,
    /// Measurement noise, milli-units.
    pub r: u32,
    /// Initial covariance, milli-units.
    pub p0: u32,
    /// Current estimate, milli-units.
    pub x: u64,
    /// Current error covariance, milli-units.
    pub p: u64,
}

impl Kalman {
    /// The covariance never exceeds this bound, whatever the history of
    /// samples: each correction leaves at most `r + p_pred/1000 (+1)`.
    pub open spec fn p_bound(self) -> int {
        self.p0 + self.q + 2 * self.r + 2
    }

    pub open spec fn wf(self) -> bool {
        &&& self.q + self.r >= 1
        &&& self.p <= self.p_bound()
        &&& self.x <= u32::MAX as int * SCALE
    }

    /// A fresh filter: estimate 0, covariance as configured.
    ///
    /// `q + r >= 1` keeps every later gain denominator positive.
    pub fn new(q: u32, r: u32, covariance: u32) -> (s: Self)
        requires
            q + r >= 1,
        ensures
            s.wf(),
            s == (Kalman { q, r, p0: covariance, x: 0u64, p: covariance as u64 }),
    {
        Kalman { q, r, p0: covariance, x: 0, p: covariance as u64 }
    }

    /// One predict/correct step on the sample `z`, returning the updated
    /// estimate in milli-units:
    /// `p <- p + q`; `k <- 1000*p/(p + r)`; `x <- x + k*(z - x)/1000`;
    /// `p <- (1000 - k)*p/1000`.
    pub fn process(&mut self, z: u32) -> (est: u64)
        requires
            old(self).wf(),
        ensures
            final(self).wf(),
            final(self).q == old(self).q,
            final(self).r == old(self).r,
            final(self).p0 == old(self).p0,
            final(self).x == spec_next_x(
                old(self).x as int,
                spec_gain(old(self).p + old(self).q, old(self).r as int),
                z as int * SCALE,
            ),
            final(self).p == spec_next_p(
                old(self).p + old(self).q,
                spec_gain(old(self).p + old(self).q, old(self).r as int),
            ),
            est == final(self).x,
    {
        let p_pred: u64 = self.p + self.q as u64;
        let k: u64 = (p_pred * SCALE as u64) / (p_pred + self.r as u64);
        proof {
            lemma_gain_le_scale(p_pred as int, self.r as int);
        }
        let zm: u64 = z as u64 * SCALE as u64;
        if zm >= self.x {
            let d: u64 = zm - self.x;
            proof {
                lemma_scaled_fraction_le(k as int, d as int);
            }
            self.x = self.x + (k * d) / (SCALE as u64);
        } else {
            let d: u64 = self.x - zm;
            proof {
                lemma_scaled_fraction_le(k as int, d as int);
            }
            self.x = self.x - (k * d) / (SCALE as u64);
        }
        proof {
            lemma_corrected_covariance_bound(p_pred as int, self.r as int, k as int);
        }
        self.p = ((SCALE as u64 - k) * p_pred) / (SCALE as u64);
        self.x
    }
}

/// The filter state after one `process` call on the sample `z`, as a value.
pub open spec fn spec_processed(k: Kalman, z: u32) -> Kalman {
    let p_pred = k.p + k.q;
    let g = spec_gain(p_pred, k.r as int);
    Kalman {
        x: spec_next_x(k.x as int, g, z as int * SCALE) as u64,
        p: spec_next_p(p_pred, g) as u64,
        ..k
    }
}

/// Law: one step on any sample moves the estimate toward that sample and
/// never past it — the new estimate lies between the old estimate and the
/// sample. Over a constant input stream the estimate is therefore monotone
/// toward the input.
pub proof fn lemma_estimate_moves_toward_sample(k: Kalman, z: u32)
    requires
        k.wf(),
    ensures
        k.x <= z as int * SCALE ==> k.x <= spec_processed(k, z).x <= z as int * SCALE,
        k.x >= z as int * SCALE ==> z as int * SCALE <= spec_processed(k, z).x <= k.x,
{
    let p_pred = k.p + k.q;
    lemma_gain_le_scale(p_pred as int, k.r as int);
    let g = spec_gain(p_pred as int, k.r as int);
    if k.x <= z as int * SCALE {
        lemma_scaled_fraction_le(g, z as int * SCALE - k.x);
    } else {
        lemma_scaled_fraction_le(g, k.x - z as int * SCALE);
    }
}

/// The filter state after `n` steps on a constant sample `z`.
pub open spec fn spec_processed_n(k: Kalman, z: u32, n: nat) -> Kalman
    decreases n,
{
    if n == 0 {
        k
    } else {
        spec_processed(spec_processed_n(k, z, (n - 1) as nat), z)
    }
}

/// Law (over whole runs): on a constant input stream the estimate is
/// monotone toward the input — starting at or below the sample it never
/// decreases and never overshoots, however many steps are taken; dually
/// from above.
pub proof fn lemma_constant_stream_estimate_monotone(k: Kalman, z: u32, n: nat)
    requires
        k.wf(),
    ensures
        spec_processed_n(k, z, n).wf(),
        k.x <= z as int * SCALE ==> k.x <= spec_processed_n(k, z, n).x <= z as int * SCALE,
        k.x >= z as int * SCALE ==> z as int * SCALE <= spec_processed_n(k, z, n).x <= k.x,
    decreases n,
{
    if n > 0 {
        lemma_constant_stream_estimate_monotone(k, z, (n - 1) as nat);
        let prev = spec_processed_n(k, z, (n - 1) as nat);
        lemma_estimate_moves_toward_sample(prev, z);
        lemma_processed_wf(prev, z);
    }
}

/// One spec-level step keeps the filter well formed.
pub proof fn lemma_processed_wf(k: Kalman, z: u32)
    requires
        k.wf(),
    ensures
        spec_processed(k, z).wf(),
{
    let p_pred = k.p + k.q;
    lemma_gain_le_scale(p_pred as int, k.r as int);
    let g = spec_gain(p_pred as int, k.r as int);
    lemma_corrected_covariance_bound(p_pred as int, k.r as int, g);
    lemma_estimate_moves_toward_sample(k, z);
}

/// Law: while the covariance still sits above the filter's resting band
/// (`999 * p >= q + 1001 * r`, which a covariance configured well above the
/// measurement noise satisfies until convergence), each step strictly
/// shrinks it. Near the resting band the discrete covariance may stall
/// instead of shrinking further, so that region is excluded here.
pub proof fn lemma_covariance_strictly_decreases(k: Kalman)
    requires
        k.wf(),
        k.q < k.r,
        999 * k.p >= k.q + 1001 * k.r,
    ensures
        spec_processed(k, 0u32).p < k.p,
        forall|z: u32| (#[trigger] spec_processed(k, z)).p == spec_processed(k, 0u32).p,
{
    let p_pred = k.p + k.q;
    let g = spec_gain(p_pred as int, k.r as int);
    lemma_corrected_covariance_bound(p_pred as int, k.r as int, g);
    assert(k.p + k.q + k.r - 1 < SCALE * (k.p - k.r)) by {
        assert(999 * k.p >= k.q + 1001 * k.r);
    }
    vstd::arithmetic::div_mod::lemma_multiply_divide_lt(
        k.p + k.q + k.r - 1,
        SCALE as int,
        k.p - k.r,
    );
}

/// The gain is a fraction of at most one: `1000*p/(p + r) <= 1000`.
proof fn lemma_gain_le_scale(p_pred: int, r: int)
    requires
        p_pred >= 0,
        r >= 0,
        p_pred + r >= 1,
    ensures
        0 <= spec_gain(p_pred, r) <= SCALE,
{
    vstd::arithmetic::div_mod::lemma_div_pos_is_pos(p_pred * SCALE, p_pred + r);
    assert(p_pred * SCALE <= (p_pred + r) * SCALE) by (nonlinear_arith)
        requires
            p_pred >= 0,
            r >= 0,
    ;
    vstd::arithmetic::div_mod::lemma_div_is_ordered(
        p_pred * SCALE,
        (p_pred + r) * SCALE,
        p_pred + r,
    );
    vstd::arithmetic::div_mod::lemma_div_by_multiple(SCALE as int, p_pred + r);
}

/// Moving by a `k/1000` fraction of a distance `d` (with `k <= 1000`)
/// never moves farther than `d` itself.
proof fn lemma_scaled_fraction_le(k: int, d: int)
    requires
        0 <= k <= SCALE,
        0 <= d,
    ensures
        0 <= (k * d) / (SCALE as int) <= d,
{
    vstd::arithmetic::div_mod::lemma_div_pos_is_pos(k * d, SCALE as int);
    assert(k * d <= SCALE * d) by (nonlinear_arith)
        requires
            0 <= k <= SCALE,
            0 <= d,
    ;
    vstd::arithmetic::div_mod::lemma_div_is_ordered(k * d, SCALE * d, SCALE as int);
    vstd::arithmetic::div_mod::lemma_div_multiples_vanish(d, SCALE as int);
}

/// The exact size of the corrected covariance numerator: from
/// `1000 * p_pred == k * (p_pred + r) + rem` it follows that
/// `(1000 - k) * p_pred == k * r + rem`, so the corrected covariance is at
/// most `r + (p_pred + r - 1) / 1000`.
proof fn lemma_corrected_covariance_bound(p_pred: int, r: int, k: int)
    requires
        p_pred >= 0,
        r >= 0,
        p_pred + r >= 1,
        k == spec_gain(p_pred, r),
    ensures
        0 <= spec_next_p(p_pred, k) <= r + (p_pred + r - 1) / (SCALE as int),
{
    let d = p_pred + r;
    let rem = (p_pred * SCALE) % d;
    vstd::arithmetic::div_mod::lemma_fundamental_div_mod(p_pred * SCALE, d);
    vstd::arithmetic::div_mod::lemma_mod_division_less_than_divisor(p_pred * SCALE, d);
    lemma_gain_le_scale(p_pred, r);
    // (1000 - k) * p_pred == k * r + rem
    assert((SCALE - k) * p_pred == k * r + rem) by (nonlinear_arith)
        requires
            p_pred * SCALE == d * k + rem,
            d == p_pred + r,
    ;
    assert(k * r <= SCALE * r) by (nonlinear_arith)
        requires
            0 <= k <= SCALE,
            r >= 0,
    ;
    vstd::arithmetic::div_mod::lemma_div_pos_is_pos((SCALE - k) * p_pred, SCALE as int);
    vstd::arithmetic::div_mod::lemma_div_is_ordered(
        (SCALE - k) * p_pred,
        SCALE * r + (d - 1),
        SCALE as int,
    );
    vstd::arithmetic::div_mod::lemma_hoist_over_denominator(d - 1, r, SCALE as nat);
}

} // verus!
